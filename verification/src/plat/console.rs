//! What goes out to the console.
use vstd::prelude::*;

verus! {

/// The bytes that the console is sent: each line feed follows a carriage
/// return.
pub open spec fn console_bytes(s: Seq<u8>) -> Seq<u8>
    decreases s.len(),
{
    if s.len() == 0 {
        s
    } else if s.last() == 10 {
        console_bytes(s.drop_last()).push(13).push(10)
    } else {
        console_bytes(s.drop_last()).push(s.last())
    }
}

/// The bytes to send for a text.
pub fn write_bytes(bytes: &Vec<u8>) -> (r: Vec<u8>)
    ensures
        r@ == console_bytes(bytes@),
{
    let mut r: Vec<u8> = Vec::new();
    let mut i: usize = 0;
    while i < bytes.len()
        invariant
            i <= bytes@.len(),
            r@ == console_bytes(bytes@.take(i as int)),
        decreases bytes@.len() - i,
    {
        let c: u8 = bytes[i];
        assert(bytes@.take((i + 1) as int).drop_last() =~= bytes@.take(i as int));
        if c == 10 {
            r.push(13);
        }
        r.push(c);
        i = i + 1;
    }
    assert(bytes@.take(i as int) =~= bytes@);
    r
}

} // verus!
