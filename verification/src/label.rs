//! Labels: the segments of a domain name.
//!
//! A label is a short string of octets. Two labels are the same label when
//! they agree after ASCII letters are folded to lower case; the octets
//! themselves are kept as they were given.

use crate::wire::put_u8;
use vstd::prelude::*;
use vstd::std_specs::cmp::PartialEqSpecImpl;
use vstd::string::*;

verus! {

/// The longest label the wire format can carry.
pub const MAX_LABEL_LEN: usize = 63;

/// `b` with an ASCII capital letter replaced by its small letter.
pub open spec fn lower(b: u8) -> u8 {
    if 0x41 <= b <= 0x5a {
        (b + 0x20) as u8
    } else {
        b
    }
}

/// `s` with every octet folded by [`lower`].
pub open spec fn lowered(s: Seq<u8>) -> Seq<u8> {
    s.map_values(|b: u8| lower(b))
}

/// Whether `a` and `b` are the same label, case aside.
pub open spec fn same_label(a: Seq<u8>, b: Seq<u8>) -> bool {
    lowered(a) == lowered(b)
}

/// What a label contributes to an encoded name: its length in one octet,
/// then its octets.
pub open spec fn label_wire(l: Seq<u8>) -> Seq<u8> {
    seq![l.len() as u8] + l
}

/// The views of a run of labels.
pub open spec fn label_views(labels: Seq<QueryToken>) -> Seq<Seq<u8>> {
    labels.map_values(|t: QueryToken| t@)
}

/// The views of a run of borrowed labels.
pub open spec fn label_ref_views(labels: Seq<&QueryToken>) -> Seq<Seq<u8>> {
    labels.map_values(|t: &QueryToken| t@)
}

/// Folds one octet to lower case.
pub fn to_lower(b: u8) -> (r: u8)
    ensures
        r == lower(b),
{
    if 0x41 <= b && b <= 0x5a {
        b + 0x20
    } else {
        b
    }
}

/// One label of a domain name.
#[derive(Debug)]
pub struct QueryToken {
    pub data: Vec<u8>,
}

impl View for QueryToken {
    type V = Seq<u8>;

    open spec fn view(&self) -> Seq<u8> {
        self.data@
    }
}

impl PartialEqSpecImpl for QueryToken {
    open spec fn obeys_eq_spec() -> bool {
        true
    }

    open spec fn eq_spec(&self, other: &QueryToken) -> bool {
        same_label(self@, other@)
    }
}

impl PartialEq for QueryToken {
    /// Labels compare without regard to the case of ASCII letters.
    fn eq(&self, other: &QueryToken) -> (r: bool) {
        if self.data.len() != other.data.len() {
            return false;
        }
        let mut i: usize = 0;
        while i < self.data.len()
            invariant
                i <= self.data.len(),
                self.data.len() == other.data.len(),
                forall|j: int| 0 <= j < i ==> lower(self.data@[j]) == lower(other.data@[j]),
            decreases self.data.len() - i,
        {
            if to_lower(self.data[i]) != to_lower(other.data[i]) {
                assert(lowered(self@)[i as int] != lowered(other@)[i as int]);
                return false;
            }
            i += 1;
        }
        assert(lowered(self@) =~= lowered(other@));
        true
    }
}

impl Clone for QueryToken {
    fn clone(&self) -> (r: QueryToken)
        ensures
            r@ == self@,
    {
        QueryToken { data: self.data.clone() }
    }
}

impl Default for QueryToken {
    fn default() -> (r: QueryToken)
        ensures
            r@ == Seq::<u8>::empty(),
    {
        QueryToken { data: Vec::new() }
    }
}

impl QueryToken {
    /// The label whose octets are the UTF-8 form of `data`.
    pub fn new(data: &str) -> (t: QueryToken)
        ensures
            t@ == data.spec_bytes(),
    {
        QueryToken { data: data.as_bytes_vec() }
    }

    /// Appends the label to `buf` in wire form.
    pub fn write(&self, buf: &mut Vec<u8>)
        requires
            self@.len() <= MAX_LABEL_LEN,
        ensures
            final(buf)@ == old(buf)@ + label_wire(self@),
    {
        put_u8(buf, self.data.len() as u8);
        let mut i: usize = 0;
        while i < self.data.len()
            invariant
                i <= self.data.len(),
                buf@ == old(buf)@ + (seq![self@.len() as u8] + self@.take(i as int)),
            decreases self.data.len() - i,
        {
            put_u8(buf, self.data[i]);
            i += 1;
        }
    }
}

} // verus!
