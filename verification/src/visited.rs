//! The table of states already enqueued, each with the smallest depth at
//! which it was.
//!
//! States are kept in buckets under a 64-bit digest of their values, so that
//! a lookup compares the state with the few that share its digest.

use std::collections::HashMap;
use vstd::prelude::*;
use vstd::std_specs::hash::*;
use crate::moves::copy_values;

verus! {

broadcast use group_hash_axioms;

/// Whether the table lets a state in at `depth`: it is new, or recorded only
/// at a strictly greater depth.
pub open spec fn admits(visited: Map<Seq<i64>, nat>, state: Seq<i64>, depth: nat) -> bool {
    !visited.contains_key(state) || visited[state] > depth
}

/// The digest `h` after one more value.
spec fn mix(h: u64, v: i64) -> u64 {
    ((h * 1099511628211 + (v + 0x8000_0000_0000_0000)) % 0x1_0000_0000_0000_0000) as u64
}

/// The digest of a state: its values mixed in, first to last.
spec fn digest(s: Seq<i64>) -> u64
    decreases s.len(),
{
    if s.len() == 0 {
        14695981039346656037
    } else {
        mix(digest(s.drop_last()), s.last())
    }
}

/// Computes the digest of a state.
fn digest_of(values: &Vec<i64>) -> (h: u64)
    ensures
        h == digest(values@),
{
    let mut h: u64 = 14695981039346656037;
    let mut i: usize = 0;
    while i < values.len()
        invariant
            i <= values.len(),
            h == digest(values@.take(i as int)),
        decreases values.len() - i,
    {
        proof {
            assert(values@.take(i + 1).drop_last() =~= values@.take(i as int));
        }
        let shifted: u128 = (values[i] as i128 + 0x8000_0000_0000_0000) as u128;
        let wide: u128 = h as u128 * 1099511628211 + shifted;
        h = (wide % 0x1_0000_0000_0000_0000) as u64;
        i = i + 1;
    }
    proof {
        assert(values@.take(values@.len() as int) =~= values@);
    }
    h
}

/// Whether two states hold the same values in the same order.
pub fn same_values(a: &Vec<i64>, b: &Vec<i64>) -> (same: bool)
    ensures
        same == (a@ == b@),
{
    if a.len() != b.len() {
        return false;
    }
    let mut i: usize = 0;
    while i < a.len()
        invariant
            i <= a.len(),
            a.len() == b.len(),
            forall|t: int| 0 <= t < i ==> a@[t] == b@[t],
        decreases a.len() - i,
    {
        if a[i] != b[i] {
            return false;
        }
        i = i + 1;
    }
    assert(a@ =~= b@);
    true
}

/// A recorded state and its depth.
struct Entry {
    key: Vec<i64>,
    depth: usize,
}

/// Whether a bucket holds `state`.
spec fn holds(bucket: Seq<Entry>, state: Seq<i64>) -> bool {
    exists|p: int| 0 <= p < bucket.len() && (#[trigger] bucket[p]).key@ == state
}

/// Whether a bucket holds states of digest `h` only, none twice, each with
/// the depth that `model` gives it.
spec fn bucket_wf(bucket: Seq<Entry>, h: u64, model: Map<Seq<i64>, nat>) -> bool {
    &&& forall|p: int|
        0 <= p < bucket.len() ==> {
            &&& digest((#[trigger] bucket[p]).key@) == h
            &&& model.contains_key(bucket[p].key@)
            &&& model[bucket[p].key@] == bucket[p].depth
        }
    &&& forall|p: int, q: int|
        0 <= p < q < bucket.len() ==> (#[trigger] bucket[p]).key@ != (#[trigger] bucket[q]).key@
}

/// Position of `state` in a bucket, if it is there.
fn find_in(bucket: &Vec<Entry>, state: &Vec<i64>) -> (found: Option<usize>)
    ensures
        match found {
            Some(p) => p < bucket.len() && bucket@[p as int].key@ == state@,
            None => !holds(bucket@, state@),
        },
{
    let mut p: usize = 0;
    while p < bucket.len()
        invariant
            p <= bucket.len(),
            forall|t: int| 0 <= t < p ==> (#[trigger] bucket@[t]).key@ != state@,
        decreases bucket.len() - p,
    {
        if same_values(&bucket[p].key, state) {
            return Some(p);
        }
        p = p + 1;
    }
    None
}

/// The closed set of the search: for each state that was ever enqueued, the
/// smallest depth at which it was.
pub struct Visited {
    buckets: HashMap<u64, Vec<Entry>>,
    model: Ghost<Map<Seq<i64>, nat>>,
}

impl View for Visited {
    type V = Map<Seq<i64>, nat>;

    closed spec fn view(&self) -> Map<Seq<i64>, nat> {
        self.model@
    }
}

impl Visited {
    /// The table's invariant: every bucket holds states of its digest only,
    /// none twice, each with its recorded depth, and every recorded state is
    /// in its bucket.
    pub closed spec fn wf(&self) -> bool {
        &&& forall|h: u64| #[trigger]
            self.buckets@.contains_key(h) ==> bucket_wf(self.buckets@[h]@, h, self.model@)
        &&& forall|s: Seq<i64>| #[trigger]
            self.model@.contains_key(s) ==> self.buckets@.contains_key(digest(s)) && holds(
                self.buckets@[digest(s)]@,
                s,
            )
    }

    /// An empty table.
    pub fn new() -> (table: Visited)
        ensures
            table.wf(),
            table@ == Map::<Seq<i64>, nat>::empty(),
    {
        Visited { buckets: HashMap::new(), model: Ghost(Map::empty()) }
    }

    /// The depth recorded for `state`, whose digest is `h`.
    fn lookup(&self, h: u64, state: &Vec<i64>) -> (depth: Option<usize>)
        requires
            self.wf(),
            h == digest(state@),
        ensures
            match depth {
                Some(d) => self@.contains_key(state@) && self@[state@] == d,
                None => !self@.contains_key(state@),
            },
    {
        match self.buckets.get(&h) {
            None => None,
            Some(bucket) => {
                match find_in(bucket, state) {
                    None => None,
                    Some(p) => Some(bucket[p].depth),
                }
            },
        }
    }

    /// The depth recorded for `state`, if any.
    pub fn depth_of(&self, state: &Vec<i64>) -> (depth: Option<usize>)
        requires
            self.wf(),
        ensures
            match depth {
                Some(d) => self@.contains_key(state@) && self@[state@] == d,
                None => !self@.contains_key(state@),
            },
    {
        self.lookup(digest_of(state), state)
    }

    /// Records `state` at `depth`, over whatever was recorded for it.
    pub fn record(&mut self, state: &Vec<i64>, depth: usize)
        requires
            old(self).wf(),
        ensures
            final(self).wf(),
            final(self)@ == old(self)@.insert(state@, depth as nat),
    {
        self.store(digest_of(state), state, depth);
    }

    /// Lets `state` in at `depth` if it is new or was recorded only at a
    /// strictly greater depth, and then records it at `depth`. Returns whether
    /// it did.
    pub fn relax(&mut self, state: &Vec<i64>, depth: usize) -> (admitted: bool)
        requires
            old(self).wf(),
        ensures
            final(self).wf(),
            admitted == admits(old(self)@, state@, depth as nat),
            final(self)@ == if admitted {
                old(self)@.insert(state@, depth as nat)
            } else {
                old(self)@
            },
    {
        let h = digest_of(state);
        let admitted = match self.lookup(h, state) {
            None => true,
            Some(recorded) => recorded > depth,
        };
        if admitted {
            self.store(h, state, depth);
        }
        admitted
    }

    /// Records `state`, whose digest is `h`, at `depth`.
    fn store(&mut self, h: u64, state: &Vec<i64>, depth: usize)
        requires
            old(self).wf(),
            h == digest(state@),
        ensures
            final(self).wf(),
            final(self)@ == old(self)@.insert(state@, depth as nat),
    {
        let taken = self.buckets.remove(&h);
        let mut bucket: Vec<Entry> = match taken {
            Some(b) => b,
            None => Vec::new(),
        };
        let ghost before = bucket@;
        let ghost gone: int = -1;
        assert(bucket_wf(before, h, old(self).model@));
        match find_in(&bucket, state) {
            Some(p) => {
                let mut entry = bucket.remove(p);
                entry.depth = depth;
                bucket.push(entry);
                proof {
                    gone = p as int;
                }
            },
            None => {
                bucket.push(Entry { key: copy_values(state), depth });
            },
        }
        self.buckets.insert(h, bucket);
        self.model = Ghost(self.model@.insert(state@, depth as nat));
        proof {
            let model = self.model@;
            let after = self.buckets@[h]@;
            let kept = if gone >= 0 { before.remove(gone) } else { before };
            assert(after == kept.push(after.last()));
            assert(after.last().key@ == state@ && after.last().depth == depth);
            // where an entry that was kept stood in the bucket as it was
            let origin = |q: int| if gone >= 0 && q >= gone { q + 1 } else { q };
            assert forall|q: int| 0 <= q < kept.len() implies 0 <= origin(q) < before.len()
                && before[origin(q)] == #[trigger] kept[q] && kept[q].key@ != state@ by {
                if gone >= 0 {
                    assert(before[gone].key@ == state@);
                    assert(origin(q) != gone);
                } else {
                    assert(!holds(before, state@));
                }
            }
            assert(holds(after, state@)) by {
                assert(after[after.len() - 1].key@ == state@);
            }
            assert forall|g: u64| #[trigger] self.buckets@.contains_key(g) implies bucket_wf(
                self.buckets@[g]@,
                g,
                model,
            ) by {
                if g == h {
                    assert forall|q: int| 0 <= q < after.len() implies {
                        &&& digest((#[trigger] after[q]).key@) == h
                        &&& model.contains_key(after[q].key@)
                        &&& model[after[q].key@] == after[q].depth
                    } by {
                        if q < kept.len() {
                            assert(after[q] == kept[q]);
                            assert(after[q] == before[origin(q)]);
                        }
                    }
                    assert forall|q: int, r: int| 0 <= q < r < after.len() implies (
                    #[trigger] after[q]).key@ != (#[trigger] after[r]).key@ by {
                        assert(after[q] == kept[q]);
                        if r < kept.len() {
                            assert(after[r] == kept[r]);
                            assert(after[q] == before[origin(q)] && after[r] == before[origin(r)]);
                            assert(origin(q) < origin(r));
                        }
                    }
                } else {
                    assert(old(self).buckets@.contains_key(g));
                    let other = self.buckets@[g]@;
                    assert(other == old(self).buckets@[g]@);
                    assert(bucket_wf(other, g, old(self).model@));
                    assert forall|q: int| 0 <= q < other.len() implies {
                        &&& digest((#[trigger] other[q]).key@) == g
                        &&& model.contains_key(other[q].key@)
                        &&& model[other[q].key@] == other[q].depth
                    } by {
                        assert(other[q].key@ != state@);
                    }
                }
            }
            assert forall|s: Seq<i64>| #[trigger] model.contains_key(s) implies self.buckets@.contains_key(
                digest(s),
            ) && holds(self.buckets@[digest(s)]@, s) by {
                if s != state@ {
                    assert(old(self).model@.contains_key(s));
                    let g = digest(s);
                    assert(old(self).buckets@.contains_key(g));
                    let was = old(self).buckets@[g]@;
                    assert(holds(was, s));
                    if g == h {
                        assert(was == before);
                        let r = choose|r: int| 0 <= r < before.len() && (#[trigger] before[r]).key@ == s;
                        let r1 = if gone >= 0 && r > gone { r - 1 } else { r };
                        assert(r != gone);
                        assert(after[r1] == kept[r1]);
                        assert(kept[r1] == before[r]);
                    }
                }
            }
        }
    }
}

} // verus!
