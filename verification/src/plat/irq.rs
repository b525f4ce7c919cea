//! Interrupt lines, their handlers, and interrupts between CPUs.
use vstd::prelude::*;

use super::cpu_topology::CpuTopology;

verus! {

/// The interrupt controller has this many inputs.
pub const MAX_IRQ_COUNT: u64 = 32;

/// Marks the lines that each CPU has for itself.
pub const CPU_LOCAL_IRQ_FLAG: u64 = 0x8000_0000_0000_0000;

pub const RAW_TIMER_IRQ: u64 = 11;

pub const RAW_IPI_IRQ: u64 = 12;

pub const TIMER_IRQ: u64 = 0x8000_0000_0000_000b;

pub const IPI_IRQ: u64 = 0x8000_0000_0000_000c;

/// The first line of a CPU that a controller can be wired to.
pub const CPU_HWI_BASE_IRQ: u64 = 2;

/// How many lines of a CPU a controller can be wired to.
pub const LIOINTC_PARENT_COUNT: u64 = 4;

/// Which interrupt a number stands for.
#[derive(Clone, Copy, Debug, PartialEq, Eq, Structural)]
pub enum IrqLine {
    Timer,
    Ipi,
    Input { input: u64 },
    Invalid,
}

pub open spec fn line_of(irq: u64) -> IrqLine {
    if irq == IPI_IRQ {
        IrqLine::Ipi
    } else if irq == TIMER_IRQ {
        IrqLine::Timer
    } else if irq < MAX_IRQ_COUNT {
        IrqLine::Input { input: irq }
    } else {
        IrqLine::Invalid
    }
}

fn classify(irq: u64) -> (r: IrqLine)
    ensures
        r == line_of(irq),
{
    if irq == IPI_IRQ {
        IrqLine::Ipi
    } else if irq == TIMER_IRQ {
        IrqLine::Timer
    } else if irq < MAX_IRQ_COUNT {
        IrqLine::Input { input: irq }
    } else {
        IrqLine::Invalid
    }
}

/// What is written to switch a line on or off.
#[derive(Clone, Copy, Debug, PartialEq, Eq, Structural)]
pub enum LineWrite {
    /// The line between CPUs: the senders' mask, then the line itself.
    Ipi { senders: u32, enabled: bool },
    Timer { enabled: bool },
    /// A mask for the controller's register that switches inputs on.
    InputsOn { mask: u32 },
    /// A mask for the controller's register that switches inputs off.
    InputsOff { mask: u32 },
    Nothing,
}

/// The mask of one input.
pub open spec fn input_mask(input: u64) -> u32 {
    1u32 << (input as u32)
}

/// What is written to switch the line of `irq`.
pub open spec fn line_write(irq: u64, enabled: bool) -> LineWrite {
    match line_of(irq) {
        IrqLine::Ipi => LineWrite::Ipi {
            senders: if enabled {
                u32::MAX
            } else {
                0
            },
            enabled,
        },
        IrqLine::Timer => LineWrite::Timer { enabled },
        IrqLine::Input { input } => if enabled {
            LineWrite::InputsOn { mask: input_mask(input) }
        } else {
            LineWrite::InputsOff { mask: input_mask(input) }
        },
        IrqLine::Invalid => LineWrite::Nothing,
    }
}

/// The numbers of the bits of `mask` that are set, from the `i`-th on.
pub open spec fn set_bits(mask: u32, i: nat) -> Seq<u64>
    decreases 32 - i,
{
    if i >= 32 {
        Seq::empty()
    } else if (mask >> (i as u32)) & 1 == 1 {
        seq![i as u64] + set_bits(mask, i + 1)
    } else {
        set_bits(mask, i + 1)
    }
}

fn list_bits(mask: u32) -> (r: Vec<u64>)
    ensures
        r@ == set_bits(mask, 0),
        forall|k: int| 0 <= k < r@.len() ==> (#[trigger] r@[k]) < 32,
{
    let mut r: Vec<u64> = Vec::new();
    let mut i: u32 = 0;
    assert(r@ + set_bits(mask, 0) =~= set_bits(mask, 0));
    while i < 32
        invariant
            i <= 32,
            r@ + set_bits(mask, i as nat) == set_bits(mask, 0),
            forall|k: int| 0 <= k < r@.len() ==> (#[trigger] r@[k]) < 32,
        decreases 32 - i,
    {
        let ghost before = r@;
        if (mask >> i) & 1 == 1 {
            r.push(i as u64);
            assert(r@ + set_bits(mask, (i + 1) as nat) =~= before + (seq![i as u64] + set_bits(
                mask,
                (i + 1) as nat,
            )));
        }
        i = i + 1;
    }
    assert(r@ + set_bits(mask, 32) =~= r@);
    r
}

/// How many of the bits of `mask` from the `i`-th on are set.
pub open spec fn bits_set(mask: u64, i: nat) -> nat
    decreases 64 - i,
{
    if i >= 64 {
        0
    } else {
        bits_set(mask, i + 1) + if (mask >> (i as u64)) & 1 == 1 {
            1nat
        } else {
            0
        }
    }
}

fn count_bits(mask: u64) -> (r: u32)
    ensures
        r == bits_set(mask, 0),
{
    let mut n: u32 = 0;
    let mut i: u64 = 64;
    while i > 0
        invariant
            i <= 64,
            n <= 64 - i,
            n == bits_set(mask, i as nat),
        decreases i,
    {
        i = i - 1;
        if (mask >> i) & 1 == 1 {
            n = n + 1;
        }
    }
    n
}

/// One call of a handler, or the lack of one.
#[derive(Clone, Copy, Debug, PartialEq, Eq, Structural)]
pub struct IrqCall {
    pub irq: u64,
    pub handler: Option<u64>,
}

/// What an interrupt leads to.
pub struct IrqDispatch {
    /// What is written back to clear an interrupt between CPUs.
    pub ipi_clear: Option<u32>,
    pub timer_clear: bool,
    /// The handlers to call, in order.
    pub calls: Vec<IrqCall>,
}

/// The handlers of interrupts and the state of their lines.
pub struct IrqTable {
    timer: Option<u64>,
    ipi: Option<u64>,
    inputs: Vec<Option<u64>>,
    enabled: u32,
    online: u64,
}

/// What an [`IrqTable`] holds.
pub ghost struct Irqs {
    pub timer: Option<u64>,
    pub ipi: Option<u64>,
    pub inputs: Seq<Option<u64>>,
    /// The inputs that are switched on.
    pub enabled: u32,
    /// The CPUs that run.
    pub online: u64,
}

impl Irqs {
    pub open spec fn wf(self) -> bool {
        self.inputs.len() == MAX_IRQ_COUNT
    }

    /// The handler of the line of `irq`.
    pub open spec fn handler(self, irq: u64) -> Option<u64> {
        match line_of(irq) {
            IrqLine::Timer => self.timer,
            IrqLine::Ipi => self.ipi,
            IrqLine::Input { input } => self.inputs[input as int],
            IrqLine::Invalid => None,
        }
    }

    pub open spec fn with_handler(self, irq: u64, h: Option<u64>) -> Self {
        match line_of(irq) {
            IrqLine::Timer => Irqs { timer: h, ..self },
            IrqLine::Ipi => Irqs { ipi: h, ..self },
            IrqLine::Input { input } => Irqs { inputs: self.inputs.update(input as int, h), ..self },
            IrqLine::Invalid => self,
        }
    }

    /// With the line of `irq` switched; the other lines are switched in the
    /// processor alone.
    pub open spec fn switched(self, irq: u64, on: bool) -> Self {
        match line_of(irq) {
            IrqLine::Input { input } => Irqs {
                enabled: if on {
                    self.enabled | input_mask(input)
                } else {
                    self.enabled & !input_mask(input)
                },
                ..self
            },
            _ => self,
        }
    }

    /// The calls for inputs.
    pub open spec fn input_calls(self, inputs: Seq<u64>) -> Seq<IrqCall> {
        inputs.map_values(|i: u64| IrqCall { irq: i, handler: self.inputs[i as int] })
    }
}

impl IrqTable {
    pub closed spec fn view(&self) -> Irqs {
        Irqs {
            timer: self.timer,
            ipi: self.ipi,
            inputs: self.inputs@,
            enabled: self.enabled,
            online: self.online,
        }
    }

    pub fn new() -> (r: Self)
        ensures
            r@.wf(),
            r@.timer is None,
            r@.ipi is None,
            forall|i: int| 0 <= i < MAX_IRQ_COUNT ==> r@.inputs[i] is None,
            r@.enabled == 0,
            r@.online == 0,
    {
        let mut inputs: Vec<Option<u64>> = Vec::new();
        while inputs.len() < 32
            invariant
                inputs@.len() <= 32,
                forall|i: int| 0 <= i < inputs@.len() ==> inputs@[i] is None,
            decreases 32 - inputs@.len(),
        {
            inputs.push(None);
        }
        IrqTable { timer: None, ipi: None, inputs, enabled: 0, online: 0 }
    }

    /// Switches a line; what is returned is written.
    pub fn set_enable(&mut self, irq: u64, on: bool) -> (r: LineWrite)
        requires
            old(self)@.wf(),
        ensures
            final(self)@.wf(),
            final(self)@ == old(self)@.switched(irq, on),
            r == line_write(irq, on),
            irq < 32 && on ==> r == (LineWrite::InputsOn { mask: 1u32 << (irq as u32) })
                && final(self)@.enabled == old(self)@.enabled | (1u32 << (irq as u32)),
            irq < 32 && !on ==> r == (LineWrite::InputsOff { mask: 1u32 << (irq as u32) })
                && final(self)@.enabled == old(self)@.enabled & !(1u32 << (irq as u32)),
            irq == 0x8000_0000_0000_000b ==> r == (LineWrite::Timer { enabled: on }),
            irq == 0x8000_0000_0000_000c ==> r is Ipi && r->Ipi_enabled == on && r->Ipi_senders
                == if on {
                0xffff_ffffu32
            } else {
                0
            },
            irq >= 32 ==> final(self)@ == old(self)@,
    {
        match classify(irq) {
            IrqLine::Ipi => LineWrite::Ipi {
                senders: if on {
                    u32::MAX
                } else {
                    0
                },
                enabled: on,
            },
            IrqLine::Timer => LineWrite::Timer { enabled: on },
            IrqLine::Input { input } => {
                let mask: u32 = 1u32 << (input as u32);
                if on {
                    self.enabled = self.enabled | mask;
                    LineWrite::InputsOn { mask }
                } else {
                    self.enabled = self.enabled & !mask;
                    LineWrite::InputsOff { mask }
                }
            },
            IrqLine::Invalid => LineWrite::Nothing,
        }
    }

    /// The handler of the line of `irq`.
    pub fn handler(&self, irq: u64) -> (r: Option<u64>)
        requires
            self@.wf(),
        ensures
            r == self@.handler(irq),
            irq < 32 ==> r == self@.inputs[irq as int],
            irq == 0x8000_0000_0000_000b ==> r == self@.timer,
            irq == 0x8000_0000_0000_000c ==> r == self@.ipi,
            irq >= 32 && irq != 0x8000_0000_0000_000b && irq != 0x8000_0000_0000_000c ==> r is None,
    {
        match classify(irq) {
            IrqLine::Timer => self.timer,
            IrqLine::Ipi => self.ipi,
            IrqLine::Input { input } => self.inputs[input as usize],
            IrqLine::Invalid => None,
        }
    }

    fn set_handler(&mut self, irq: u64, h: Option<u64>)
        requires
            old(self)@.wf(),
        ensures
            final(self)@.wf(),
            final(self)@ == old(self)@.with_handler(irq, h),
    {
        match classify(irq) {
            IrqLine::Timer => {
                self.timer = h;
            },
            IrqLine::Ipi => {
                self.ipi = h;
            },
            IrqLine::Input { input } => {
                self.inputs.set(input as usize, h);
            },
            IrqLine::Invalid => {},
        }
    }

    /// Takes a handler for a line that has none and switches the line on.
    pub fn register(&mut self, irq: u64, handler: u64) -> (r: Option<LineWrite>)
        requires
            old(self)@.wf(),
        ensures
            final(self)@.wf(),
            ({
                let free = line_of(irq) != IrqLine::Invalid && old(self)@.handler(irq) is None;
                &&& r == if free {
                    Some(line_write(irq, true))
                } else {
                    None
                }
                &&& final(self)@ == if free {
                    old(self)@.with_handler(irq, Some(handler)).switched(irq, true)
                } else {
                    old(self)@
                }
            }),
            r is Some <==> (irq < 32 && old(self)@.inputs[irq as int] is None) || (irq
                == 0x8000_0000_0000_000b && old(self)@.timer is None) || (irq
                == 0x8000_0000_0000_000c && old(self)@.ipi is None),
            r is Some && irq < 32 ==> {
                &&& r == Some(LineWrite::InputsOn { mask: 1u32 << (irq as u32) })
                &&& final(self)@ == (Irqs {
                    inputs: old(self)@.inputs.update(irq as int, Some(handler)),
                    enabled: old(self)@.enabled | (1u32 << (irq as u32)),
                    ..old(self)@
                })
            },
            r is Some && irq == 0x8000_0000_0000_000b ==> final(self)@ == (Irqs {
                timer: Some(handler),
                ..old(self)@
            }),
            r is Some && irq == 0x8000_0000_0000_000c ==> final(self)@ == (Irqs {
                ipi: Some(handler),
                ..old(self)@
            }),
    {
        if classify(irq) == IrqLine::Invalid || self.handler(irq).is_some() {
            return None;
        }
        self.set_handler(irq, Some(handler));
        Some(self.set_enable(irq, true))
    }

    /// Takes the handler of a line away and switches the line off. The lines
    /// that each CPU has for itself stay while more than one CPU runs.
    pub fn unregister(&mut self, irq: u64) -> (r: Option<(u64, LineWrite)>)
        requires
            old(self)@.wf(),
        ensures
            final(self)@.wf(),
            ({
                let s = old(self)@;
                let kept = (irq == TIMER_IRQ || irq == IPI_IRQ) && bits_set(s.online, 0) > 1;
                match s.handler(irq) {
                    Some(h) if !kept => {
                        &&& r == Some((h, line_write(irq, false)))
                        &&& final(self)@ == s.with_handler(irq, None).switched(irq, false)
                    },
                    _ => r is None && final(self)@ == s,
                }
            }),
            irq < 32 ==> (match old(self)@.inputs[irq as int] {
                Some(h) => {
                    &&& r == Some((h, LineWrite::InputsOff { mask: 1u32 << (irq as u32) }))
                    &&& final(self)@ == (Irqs {
                        inputs: old(self)@.inputs.update(irq as int, None),
                        enabled: old(self)@.enabled & !(1u32 << (irq as u32)),
                        ..old(self)@
                    })
                },
                None => r is None && final(self)@ == old(self)@,
            }),
    {
        if (irq == TIMER_IRQ || irq == IPI_IRQ) && count_bits(self.online) > 1 {
            return None;
        }
        match self.handler(irq) {
            None => None,
            Some(h) => {
                self.set_handler(irq, None);
                let w: LineWrite = self.set_enable(irq, false);
                Some((h, w))
            },
        }
    }

    /// What a raised line of the CPU leads to. `ipi_status` are the pending
    /// interrupts between CPUs, `pending` the controller's inputs; `cascade` is
    /// the line that the controller is wired to.
    pub fn handle(&self, irq: u64, ipi_status: u32, pending: u32, cascade: u64) -> (r: IrqDispatch)
        requires
            self@.wf(),
        ensures
            ({
                let s = self@;
                if irq == RAW_IPI_IRQ {
                    &&& r.ipi_clear == if ipi_status == 0 {
                        None::<u32>
                    } else {
                        Some(ipi_status)
                    }
                    &&& !r.timer_clear
                    &&& r.calls@ == Seq::new(
                        set_bits(ipi_status, 0).len(),
                        |i: int| IrqCall { irq: IPI_IRQ, handler: s.ipi },
                    )
                } else if irq == RAW_TIMER_IRQ {
                    &&& r.ipi_clear is None
                    &&& r.timer_clear
                    &&& r.calls@ == seq![IrqCall { irq: TIMER_IRQ, handler: s.timer }]
                } else {
                    &&& r.ipi_clear is None
                    &&& !r.timer_clear
                    &&& r.calls@ == if irq == cascade {
                        s.input_calls(set_bits(pending & s.enabled, 0))
                    } else {
                        Seq::empty()
                    }
                }
            }),
    {
        let mut calls: Vec<IrqCall> = Vec::new();
        if irq == RAW_IPI_IRQ {
            let bits: Vec<u64> = list_bits(ipi_status);
            let mut i: usize = 0;
            while i < bits.len()
                invariant
                    i <= bits@.len(),
                    calls@.len() == i,
                    forall|k: int|
                        0 <= k < i ==> calls@[k] == (IrqCall { irq: IPI_IRQ, handler: self@.ipi }),
                decreases bits@.len() - i,
            {
                calls.push(IrqCall { irq: IPI_IRQ, handler: self.ipi });
                i = i + 1;
            }
            assert(calls@ =~= Seq::new(
                set_bits(ipi_status, 0).len(),
                |i: int| IrqCall { irq: IPI_IRQ, handler: self@.ipi },
            ));
            return IrqDispatch {
                ipi_clear: if ipi_status == 0 {
                    None
                } else {
                    Some(ipi_status)
                },
                timer_clear: false,
                calls,
            };
        }
        if irq == RAW_TIMER_IRQ {
            calls.push(IrqCall { irq: TIMER_IRQ, handler: self.timer });
            assert(calls@ =~= seq![IrqCall { irq: TIMER_IRQ, handler: self@.timer }]);
            return IrqDispatch { ipi_clear: None, timer_clear: true, calls };
        }
        if irq == cascade {
            let bits: Vec<u64> = list_bits(pending & self.enabled);
            let mut i: usize = 0;
            while i < bits.len()
                invariant
                    self@.wf(),
                    i <= bits@.len(),
                    calls@.len() == i,
                    forall|k: int| 0 <= k < bits@.len() ==> (#[trigger] bits@[k]) < 32,
                    forall|k: int|
                        0 <= k < i ==> calls@[k] == (IrqCall {
                            irq: bits@[k],
                            handler: self@.inputs[bits@[k] as int],
                        }),
                decreases bits@.len() - i,
            {
                let input: u64 = bits[i];
                assert(bits@[i as int] < 32);
                calls.push(IrqCall { irq: input, handler: self.inputs[input as usize] });
                i = i + 1;
            }
            assert(calls@ =~= self@.input_calls(set_bits(pending & self@.enabled, 0)));
        }
        IrqDispatch { ipi_clear: None, timer_clear: false, calls }
    }

    /// Sets the controller up, which raises line `cascade_irq` of the CPU: every
    /// input goes to the first CPU, is switched off, and is sensitive to a high
    /// level. What is returned is written. The controller has to be wired to a
    /// line that it can use: a caller stops where it is not.
    pub fn init_early(&mut self, cascade_irq: u64) -> (r: ControllerSetup)
        requires
            old(self)@.wf(),
            spec_route_value(cascade_irq) is Some,
        ensures
            final(self)@.wf(),
            final(self)@ == (Irqs { enabled: 0, ..old(self)@ }),
            r.routes@ == Seq::new(32, |i: int| spec_route_value(cascade_irq)->0),
            r.disable == u32::MAX,
            r.edge == 0,
            r.polarity == 0,
            r.cascade_mask == 1u64 << cascade_irq,
    {
        let route: u8 = liointc_route_value(cascade_irq).unwrap();
        let mut routes: Vec<u8> = Vec::new();
        while routes.len() < 32
            invariant
                routes@.len() <= 32,
                forall|i: int| 0 <= i < routes@.len() ==> routes@[i] == route,
            decreases 32 - routes@.len(),
        {
            routes.push(route);
        }
        assert(routes@ =~= Seq::new(32, |i: int| route));
        self.enabled = 0;
        ControllerSetup {
            routes,
            disable: u32::MAX,
            edge: 0,
            polarity: 0,
            cascade_mask: 1u64 << cascade_irq,
        }
    }

    /// Takes in that a CPU runs. There is a bit for 64 of them.
    pub fn cpu_online(&mut self, cpu_id: u64) -> (r: LineWrite)
        requires
            old(self)@.wf(),
        ensures
            final(self)@.wf(),
            final(self)@ == if cpu_id < 64 {
                Irqs { online: old(self)@.online | (1u64 << cpu_id), ..old(self)@ }
            } else {
                old(self)@
            },
            r == if cpu_id < 64 {
                LineWrite::Ipi { senders: u32::MAX, enabled: true }
            } else {
                LineWrite::Nothing
            },
    {
        if cpu_id < 64 {
            self.online = self.online | (1u64 << cpu_id);
            LineWrite::Ipi { senders: u32::MAX, enabled: true }
        } else {
            LineWrite::Nothing
        }
    }

    /// What is written to interrupt a CPU.
    pub fn send_ipi_to_cpu<const CAPACITY: usize>(
        &self,
        cpu_id: usize,
        topology: &CpuTopology<CAPACITY>,
    ) -> (r: Result<u32, IpiError>)
        requires
            topology.wf(),
        ensures
            r == ipi_value(self@.online, topology@, cpu_id),
            r matches Ok(v) ==> cpu_id < topology@.len() && cpu_id < 64 && self@.online & (1u64 << (
            cpu_id as u64)) != 0 && v == ((topology@[cpu_id as int] as u32) << 16) | 0x8000_0000,
            r == Err::<u32, IpiError>(IpiError::CpuOffline) ==> cpu_id < 64 && self@.online & (1u64
                << (cpu_id as u64)) == 0,
    {
        if cpu_id >= topology.cpu_count() || cpu_id >= 64 {
            return Err(IpiError::InvalidTarget);
        }
        if self.online & (1u64 << (cpu_id as u64)) == 0 {
            return Err(IpiError::CpuOffline);
        }
        match topology.hardware_id(cpu_id) {
            None => Err(IpiError::InvalidTarget),
            Some(id) => {
                if id as u64 > u32::MAX as u64 {
                    return Err(IpiError::InvalidTarget);
                }
                let id32: u32 = id as u32;
                Ok((id32 << 16) | IPI_SEND_BLOCKING)
            },
        }
    }

    /// What is written to interrupt the CPUs of a target, one after the other,
    /// and how it ends: the first CPU that cannot be interrupted ends it.
    pub fn send_ipi<const CAPACITY: usize>(
        &self,
        target: IpiTarget,
        topology: &CpuTopology<CAPACITY>,
    ) -> (r: (Vec<u32>, Result<(), IpiError>))
        requires
            topology.wf(),
        ensures
            (r.0@, r.1) == match target {
                IpiTarget::One { cpu_id } => ipis(
                    self@.online,
                    topology@,
                    cpu_id as int,
                    cpu_id + 1,
                    None,
                    Seq::empty(),
                ),
                IpiTarget::AllExceptCurrent { cpu_id, cpu_num } => ipis(
                    self@.online,
                    topology@,
                    0,
                    cpu_num as int,
                    Some(cpu_id),
                    Seq::empty(),
                ),
            },
    {
        match target {
            IpiTarget::One { cpu_id } => {
                let mut sent: Vec<u32> = Vec::new();
                reveal_with_fuel(ipis, 2);
                match self.send_ipi_to_cpu(cpu_id, topology) {
                    Ok(v) => {
                        sent.push(v);
                        (sent, Ok(()))
                    },
                    Err(e) => (sent, Err(e)),
                }
            },
            IpiTarget::AllExceptCurrent { cpu_id, cpu_num } => {
                let mut sent: Vec<u32> = Vec::new();
                let mut i: usize = 0;
                while i < cpu_num
                    invariant
                        topology.wf(),
                        i <= cpu_num,
                        ipis(
                            self@.online,
                            topology@,
                            0,
                            cpu_num as int,
                            Some(cpu_id),
                            Seq::empty(),
                        ) == ipis(
                            self@.online,
                            topology@,
                            i as int,
                            cpu_num as int,
                            Some(cpu_id),
                            sent@,
                        ),
                        target == (IpiTarget::AllExceptCurrent { cpu_id, cpu_num }),
                    decreases cpu_num - i,
                {
                    if i != cpu_id {
                        match self.send_ipi_to_cpu(i, topology) {
                            Ok(v) => {
                                sent.push(v);
                            },
                            Err(e) => {
                                return (sent, Err(e));
                            },
                        }
                    }
                    i = i + 1;
                }
                (sent, Ok(()))
            },
        }
    }
}

/// The bit that makes a sender wait until the interrupt was taken.
pub const IPI_SEND_BLOCKING: u32 = 0x8000_0000;

#[derive(Clone, Copy, Debug, PartialEq, Eq, Structural)]
pub enum IpiError {
    InvalidTarget,
    CpuOffline,
}

/// Whom an interrupt between CPUs is for.
#[derive(Clone, Copy, Debug, PartialEq, Eq, Structural)]
pub enum IpiTarget {
    One { cpu_id: usize },
    AllExceptCurrent { cpu_id: usize, cpu_num: usize },
}

/// What is written to interrupt the CPU with number `cpu_id`.
pub open spec fn ipi_value(online: u64, topology: Seq<usize>, cpu_id: usize) -> Result<
    u32,
    IpiError,
> {
    if cpu_id >= topology.len() || cpu_id >= 64 {
        Err(IpiError::InvalidTarget)
    } else if online & (1u64 << (cpu_id as u64)) == 0 {
        Err(IpiError::CpuOffline)
    } else if topology[cpu_id as int] > u32::MAX {
        Err(IpiError::InvalidTarget)
    } else {
        Ok(((topology[cpu_id as int] as u32) << 16) | IPI_SEND_BLOCKING)
    }
}

/// What is written to interrupt the CPUs from `i` to `n` but `except`.
pub open spec fn ipis(
    online: u64,
    topology: Seq<usize>,
    i: int,
    n: int,
    except: Option<usize>,
    sent: Seq<u32>,
) -> (Seq<u32>, Result<(), IpiError>)
    decreases n - i,
{
    if i >= n {
        (sent, Ok(()))
    } else if except == Some(i as usize) {
        ipis(online, topology, i + 1, n, except, sent)
    } else {
        match ipi_value(online, topology, i as usize) {
            Ok(v) => ipis(online, topology, i + 1, n, except, sent.push(v)),
            Err(e) => (sent, Err(e)),
        }
    }
}

/// The line of a controller that is wired to line `irq` of the CPU.
pub open spec fn spec_parent_index(irq: u64) -> Option<u64> {
    if CPU_HWI_BASE_IRQ <= irq < CPU_HWI_BASE_IRQ + LIOINTC_PARENT_COUNT {
        Some((irq - CPU_HWI_BASE_IRQ) as u64)
    } else {
        None
    }
}

pub fn parent_index_from_cpu_irq(irq: u64) -> (r: Option<u64>)
    ensures
        r == spec_parent_index(irq),
{
    if irq >= CPU_HWI_BASE_IRQ && irq - CPU_HWI_BASE_IRQ < LIOINTC_PARENT_COUNT {
        Some(irq - CPU_HWI_BASE_IRQ)
    } else {
        None
    }
}

/// The route of an input to the first CPU, by the line that it takes: one bit
/// for the CPU and one for the line.
pub open spec fn spec_route_value(cascade_irq: u64) -> Option<u8> {
    match spec_parent_index(cascade_irq) {
        Some(0) => Some(0x11),
        Some(1) => Some(0x21),
        Some(2) => Some(0x41),
        Some(3) => Some(0x81),
        _ => None,
    }
}

pub fn liointc_route_value(cascade_irq: u64) -> (r: Option<u8>)
    ensures
        r == spec_route_value(cascade_irq),
{
    match parent_index_from_cpu_irq(cascade_irq) {
        None => None,
        Some(parent) => {
            let shift: u32 = 4 + parent as u32;
            let route: u8 = 1 | (1u8 << shift);
            assert((1u8 | (1u8 << 4u32)) == 0x11 && (1u8 | (1u8 << 5u32)) == 0x21 && (1u8 | (1u8
                << 6u32)) == 0x41 && (1u8 | (1u8 << 7u32)) == 0x81) by (bit_vector);
            Some(route)
        },
    }
}

/// What is written to set the controller up.
pub struct ControllerSetup {
    /// The route of each input.
    pub routes: Vec<u8>,
    /// The inputs that are switched off.
    pub disable: u32,
    pub edge: u32,
    pub polarity: u32,
    /// The mask of the line of the CPU that is switched on.
    pub cascade_mask: u64,
}

/// The inputs that are called for are those whose bits are set, each once, the
/// lowest first.
pub proof fn lemma_every_raised_input_is_called(mask: u32, i: nat, b: u32, k: int)
    requires
        i <= 32,
        b < 32,
    ensures
        ({
            let s = set_bits(mask, i);
            &&& i <= b ==> (s.contains(b as u64) <==> (mask >> b) & 1 == 1)
            &&& b < i ==> !s.contains(b as u64)
            &&& 0 <= k < s.len() ==> i <= s[k] < 32
            &&& forall|m: int, n: int| 0 <= m < n < s.len() ==> (#[trigger] s[m]) < (#[trigger] s[n])
        }),
    decreases 32 - i,
{
    if i < 32 {
        let s = set_bits(mask, i);
        let rest = set_bits(mask, i + 1);
        lemma_every_raised_input_is_called(mask, i + 1, b, k);
        lemma_every_raised_input_is_called(mask, i + 1, b, k - 1);
        if (mask >> (i as u32)) & 1 == 1 {
            assert(s == seq![i as u64] + rest);
            assert(s[0] == i);
            assert forall|m: int, n: int| 0 <= m < n < s.len() implies (#[trigger] s[m]) < (
            #[trigger] s[n]) by {
                lemma_every_raised_input_is_called(mask, i + 1, b, n - 1);
                assert(s[n] == rest[n - 1]);
                if m > 0 {
                    assert(s[m] == rest[m - 1]);
                }
            }
            if rest.contains(b as u64) {
                let j = choose|j: int| 0 <= j < rest.len() && rest[j] == b;
                assert(s[j + 1] == b);
            }
            if s.contains(b as u64) {
                let j = choose|j: int| 0 <= j < s.len() && s[j] == b;
                if j > 0 {
                    assert(rest[j - 1] == b);
                }
            }
        }
    }
}

/// More than one bit is set exactly where there are two of them.
pub proof fn lemma_two_bits_are_more_than_one(mask: u64, i: nat)
    requires
        i <= 64,
    ensures
        bits_set(mask, i) >= 1 <==> exists|a: u64| i <= a < 64 && (mask >> a) & 1 == 1,
        bits_set(mask, i) > 1 <==> exists|a: u64, b: u64|
            i <= a < b < 64 && #[trigger] ((mask >> a) & 1) == 1 && #[trigger] ((mask >> b) & 1) == 1,
    decreases 64 - i,
{
    if i < 64 {
        lemma_two_bits_are_more_than_one(mask, i + 1);
        let c = i as u64;
        if (mask >> c) & 1 == 1 {
            if exists|a: u64| i + 1 <= a < 64 && (mask >> a) & 1 == 1 {
                let a = choose|a: u64| i + 1 <= a < 64 && (mask >> a) & 1 == 1;
                assert(i <= c < a < 64 && ((mask >> c) & 1) == 1 && ((mask >> a) & 1) == 1);
            }
        }
        if exists|a: u64, b: u64|
            i <= a < b < 64 && #[trigger] ((mask >> a) & 1) == 1 && #[trigger] ((mask >> b) & 1)
                == 1 {
            let (a, b) = choose|a: u64, b: u64|
                i <= a < b < 64 && #[trigger] ((mask >> a) & 1) == 1 && #[trigger] ((mask >> b)
                    & 1) == 1;
            assert(i + 1 <= b < 64 && (mask >> b) & 1 == 1);
            if a > i {
                assert(i + 1 <= a < b < 64 && ((mask >> a) & 1) == 1 && ((mask >> b) & 1) == 1);
            }
        }
        if exists|a: u64| i <= a < 64 && (mask >> a) & 1 == 1 {
            let a = choose|a: u64| i <= a < 64 && (mask >> a) & 1 == 1;
            if a > i {
                assert(i + 1 <= a < 64 && (mask >> a) & 1 == 1);
            } else {
                assert(a == c);
            }
        }
    }
}

/// Interrupting several CPUs interrupts each of them but the one that is left
/// out, in order, and nobody else. It fails with the first CPU that cannot be
/// interrupted; those before it were.
pub proof fn lemma_every_cpu_is_interrupted(
    online: u64,
    topology: Seq<usize>,
    i: int,
    n: int,
    except: Option<usize>,
    sent: Seq<u32>,
    cpu: usize,
)
    requires
        0 <= i <= n <= usize::MAX,
        i <= cpu < n,
        except != Some(cpu),
    ensures
        ({
            let (values, r) = ipis(online, topology, i, n, except, sent);
            &&& values.len() >= sent.len()
            &&& r is Ok ==> cpu < topology.len() && cpu < 64 && online & (1u64 << (cpu as u64)) != 0
                && topology[cpu as int] <= u32::MAX && values.skip(sent.len() as int).contains(
                ((topology[cpu as int] as u32) << 16) | 0x8000_0000,
            )
            &&& r is Ok ==> values.len() == sent.len() + (n - i) - (if except is Some && i
                <= except->0 < n {
                1int
            } else {
                0
            })
        }),
    decreases n - i,
{
    let (values, r) = ipis(online, topology, i, n, except, sent);
    if except == Some(i as usize) {
        lemma_every_cpu_is_interrupted(online, topology, i + 1, n, except, sent, cpu);
    } else {
        match ipi_value(online, topology, i as usize) {
            Ok(v) => {
                let more = sent.push(v);
                lemma_ipis_go_on(online, topology, i + 1, n, except, more);
                if cpu == i {
                    if r is Ok {
                        assert(values[sent.len() as int] == v);
                        assert(values.skip(sent.len() as int)[0] == v);
                    }
                } else {
                    lemma_every_cpu_is_interrupted(online, topology, i + 1, n, except, more, cpu);
                    if r is Ok {
                        let w = ((topology[cpu as int] as u32) << 16) | 0x8000_0000;
                        let tail = values.skip(more.len() as int);
                        let j = choose|j: int| 0 <= j < tail.len() && tail[j] == w;
                        assert(values.skip(sent.len() as int)[j + 1] == w);
                    }
                }
            },
            Err(_) => {},
        }
    }
}

/// What was sent stays sent.
proof fn lemma_ipis_go_on(
    online: u64,
    topology: Seq<usize>,
    i: int,
    n: int,
    except: Option<usize>,
    sent: Seq<u32>,
)
    requires
        0 <= i <= n <= usize::MAX,
    ensures
        ({
            let (values, r) = ipis(online, topology, i, n, except, sent);
            &&& values.len() >= sent.len()
            &&& forall|k: int| 0 <= k < sent.len() ==> #[trigger] values[k] == sent[k]
            &&& r is Ok ==> values.len() == sent.len() + (n - i) - (if except is Some && i
                <= except->0 < n {
                1int
            } else {
                0
            })
        }),
    decreases n - i,
{
    if i < n {
        if except == Some(i as usize) {
            lemma_ipis_go_on(online, topology, i + 1, n, except, sent);
        } else {
            match ipi_value(online, topology, i as usize) {
                Ok(v) => {
                    let more = sent.push(v);
                    lemma_ipis_go_on(online, topology, i + 1, n, except, more);
                    let values = ipis(online, topology, i, n, except, sent).0;
                    assert forall|k: int| 0 <= k < sent.len() implies #[trigger] values[k]
                        == sent[k] by {
                        assert(values[k] == more[k]);
                    }
                },
                Err(_) => {},
            }
        }
    }
}

} // verus!
