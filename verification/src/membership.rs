//! The membership set of previously seen line contents, with byte-exact
//! equality; it only ever grows.

use vstd::prelude::*;

verus! {

/// The set of line contents seen so far. Membership is byte-exact: no case
/// folding, no normalization, no trimming.
pub struct Membership {
    items: Vec<Vec<u8>>,
}

impl View for Membership {
    type V = Set<Seq<u8>>;

    /// The mathematical set of byte sequences held.
    closed spec fn view(&self) -> Set<Seq<u8>> {
        Set::new(|s: Seq<u8>| exists|k: int| 0 <= k < self.items@.len() && self.items@[k]@ == s)
    }
}

/// Byte-for-byte equality of two byte vectors.
fn bytes_eq(a: &Vec<u8>, b: &Vec<u8>) -> (r: bool)
    ensures
        r == (a@ == b@),
{
    if a.len() != b.len() {
        return false;
    }
    let mut i: usize = 0;
    while i < a.len()
        invariant
            i <= a@.len(),
            a@.len() == b@.len(),
            forall|j: int| 0 <= j < i ==> a@[j] == b@[j],
        decreases a@.len() - i,
    {
        if a[i] != b[i] {
            return false;
        }
        i += 1;
    }
    proof {
        assert(a@ =~= b@);
    }
    true
}

impl Membership {
    /// An empty membership set.
    pub fn new() -> (m: Membership)
        ensures
            m@ == Set::<Seq<u8>>::empty(),
    {
        let m = Membership { items: Vec::new() };
        proof {
            assert(m@ =~= Set::<Seq<u8>>::empty());
        }
        m
    }

    /// Whether this exact byte content was seen before.
    pub fn contains(&self, line: &Vec<u8>) -> (r: bool)
        ensures
            r == self@.contains(line@),
    {
        let mut i: usize = 0;
        while i < self.items.len()
            invariant
                i <= self.items@.len(),
                forall|k: int| 0 <= k < i ==> self.items@[k]@ != line@,
            decreases self.items@.len() - i,
        {
            if bytes_eq(&self.items[i], line) {
                return true;
            }
            i += 1;
        }
        false
    }

    /// Record this content as seen. Returns whether it was newly inserted;
    /// a content already present is left as it is.
    pub fn insert(&mut self, line: Vec<u8>) -> (novel: bool)
        ensures
            novel == !old(self)@.contains(line@),
            final(self)@ == old(self)@.insert(line@),
    {
        if self.contains(&line) {
            proof {
                assert(self@ =~= self@.insert(line@));
            }
            false
        } else {
            let ghost prior = self.items@;
            self.items.push(line);
            proof {
                assert(forall|k: int| 0 <= k < prior.len() ==> self.items@[k] == prior[k]);
                assert(self@ =~= old(self)@.insert(line@)) by {
                    assert(forall|s: Seq<u8>| old(self)@.insert(line@).contains(s)
                        ==> self@.contains(s)) by {
                        assert(forall|k: int| 0 <= k < prior.len()
                            ==> self.items@[k]@ == prior[k]@);
                        assert(self.items@[prior.len() as int]@ == line@);
                    }
                };
            }
            true
        }
    }
}

} // verus!
