//! Assembles one big-endian `u16` from bytes that arrive a few at a time.

use vstd::prelude::*;

verus! {

/// The value of two bytes read most significant first.
pub open spec fn be_value(high: u8, low: u8) -> u16 {
    (high as int * 256 + low as int) as u16
}

/// The two bytes of `value`, most significant first.
pub open spec fn be_bytes(value: u16) -> Seq<u8> {
    seq![(value / 256) as u8, (value % 256) as u8]
}

/// What an accumulator that holds `held` keeps of `data`: the head of `data`,
/// as far as two bytes are not yet complete.
pub open spec fn accepted(held: Seq<u8>, data: Seq<u8>) -> Seq<u8> {
    if held.len() >= 2 {
        Seq::empty()
    } else if data.len() <= 2 - held.len() {
        data
    } else {
        data.take(2 - held.len())
    }
}

/// Reading two bytes back gives the value they were made from.
pub proof fn lemma_be_value_of_bytes(value: u16)
    ensures
        be_bytes(value).len() == 2,
        be_value(be_bytes(value)[0], be_bytes(value)[1]) == value,
{
}

/// Writing a value out gives the two bytes it was read from.
pub proof fn lemma_be_bytes_of_value(high: u8, low: u8)
    ensures
        be_bytes(be_value(high, low)) == seq![high, low],
{
    assert(be_bytes(be_value(high, low)) =~= seq![high, low]);
}

/// Holds the bytes of a `u16` received so far, never more than two.
pub struct U16Reader {
    buffer: Vec<u8>,
}

impl View for U16Reader {
    type V = Seq<u8>;

    closed spec fn view(&self) -> Seq<u8> {
        self.buffer@
    }
}

impl Default for U16Reader {
    fn default() -> (reader: Self)
        ensures
            reader@ == Seq::<u8>::empty(),
    {
        U16Reader::new()
    }
}

impl U16Reader {
    /// An accumulator that holds nothing.
    pub fn new() -> (reader: Self)
        ensures
            reader@ == Seq::<u8>::empty(),
    {
        U16Reader { buffer: Vec::new() }
    }

    /// How many bytes are still missing.
    pub fn bytes_needed(&self) -> (needed: usize)
        ensures
            needed == if self@.len() >= 2 {
                0
            } else {
                2 - self@.len()
            },
    {
        if self.buffer.len() >= 2 {
            0
        } else {
            2 - self.buffer.len()
        }
    }

    /// Takes bytes from the head of `data` until two are held; the rest of
    /// `data` is left alone.
    pub fn write(&mut self, data: &[u8])
        ensures
            final(self)@ == old(self)@ + accepted(old(self)@, data@),
    {
        let mut taken: usize = 0;
        while taken < data.len() && self.buffer.len() < 2
            invariant
                taken <= data@.len(),
                self.buffer@.len() == old(self)@.len() + taken,
                self.buffer@.len() <= 2 || taken == 0,
                self.buffer@ == old(self)@ + data@.take(taken as int),
            decreases data@.len() - taken,
        {
            self.buffer.push(data[taken]);
            taken = taken + 1;
            assert(data@.take(taken as int) =~= data@.take(taken - 1).push(data@[taken - 1]));
        }
        assert(data@.take(taken as int) =~= accepted(old(self)@, data@));
    }

    /// The value, once both of its bytes are held.
    pub fn finish(&self) -> (value: Option<u16>)
        ensures
            value == if self@.len() == 2 {
                Some(be_value(self@[0], self@[1]))
            } else {
                None
            },
    {
        if self.buffer.len() == 2 {
            let high: u16 = self.buffer[0] as u16;
            let low: u16 = self.buffer[1] as u16;
            Some(high * 256 + low)
        } else {
            None
        }
    }
}

} // verus!
