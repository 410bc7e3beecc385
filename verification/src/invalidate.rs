use vstd::prelude::*;
use crate::grid::Grid;
use crate::journal::{ActivationCounters, MatchMap, MemoryBuffers};
use crate::rule_eq::{rules_equal, same_rule};
use crate::tick_state::TickState;
use crate::types::{RecordedValue, Rule, RuleIndex};

verus! {

// ---------------------------------------------------------------------------
// Dropping the state of rules that changed
// ---------------------------------------------------------------------------

/// `m` without the keys that `drop` picks.
pub open spec fn without_keys<K, V>(m: Map<K, V>, drop: spec_fn(K) -> bool) -> Map<K, V> {
    Map::new(|k: K| m.contains_key(k) && !drop(k), |k: K| m[k])
}

/// Rule slot `i` differs between the rules `o` and `n` of one head: present in one only, or
/// holding different rules.
pub open spec fn slot_changed(o: Seq<Rule>, n: Seq<Rule>, i: int) -> bool {
    0 <= i && (i < o.len() || i < n.len()) && !(i < o.len() && i < n.len() && same_rule(o[i], n[i]))
}

/// Rule slot `i` of head `h` differs between two rule indexes.
pub open spec fn rule_changed(old_index: RuleIndex, new_index: RuleIndex, h: int, i: int) -> bool {
    slot_changed(old_index.rules_of(h), new_index.rules_of(h), i)
}

/// The state kept for key `k` (a position and a rule slot) belongs to head `h` at that
/// position of the grid and to a slot marked in `mask`.
pub open spec fn marked_key(g: Grid, h: u8, mask: Seq<bool>, k: (u32, u32, usize)) -> bool {
    &&& g.spec_in_grid(k.0 as int, k.1 as int)
    &&& g.spec_cell(k.0 as int, k.1 as int).value.0.0 == h
    &&& k.2 < mask.len()
    &&& mask[k.2 as int]
}

/// The state kept for key `k` belongs to a rule slot that changed, of the head at its
/// position of the grid.
pub open spec fn stale_state_key(g: Grid, old_index: RuleIndex, new_index: RuleIndex, k: (u32, u32, usize)) -> bool {
    g.spec_in_grid(k.0 as int, k.1 as int) && rule_changed(
        old_index,
        new_index,
        g.spec_cell(k.0 as int, k.1 as int).value.0.0 as int,
        k.2 as int,
    )
}

/// The slots of one head that changed, as a mask.
fn changed_slots(o: &[Rule], n: &[Rule]) -> (r: Vec<bool>)
    ensures
        r@.len() == if o@.len() > n@.len() {
            o@.len()
        } else {
            n@.len()
        },
        forall|i: int| 0 <= i < r@.len() ==> #[trigger] r@[i] == slot_changed(o@, n@, i),
{
    let len = if o.len() > n.len() {
        o.len()
    } else {
        n.len()
    };
    let mut out: Vec<bool> = Vec::new();
    let mut i: usize = 0;
    while i < len
        invariant
            len == (if o@.len() > n@.len() {
                o@.len()
            } else {
                n@.len()
            }),
            i <= len,
            out@.len() == i,
            forall|j: int| 0 <= j < i ==> #[trigger] out@[j] == slot_changed(o@, n@, j),
        decreases len - i,
    {
        let same = i < o.len() && i < n.len() && rules_equal(&o[i], &n[i]);
        out.push(!same);
        i += 1;
    }
    out
}

fn key_marked(g: &Grid, h: u8, mask: &Vec<bool>, k: (u32, u32, usize)) -> (r: bool)
    ensures
        r == marked_key(*g, h, mask@, k),
{
    if k.2 < mask.len() && mask[k.2] {
        match g.get_cell(k.0 as usize, k.1 as usize) {
            Some(c) => c.value.0.0 == h,
            None => false,
        }
    } else {
        false
    }
}

fn drop_marked_values<V: Copy>(m: &mut MatchMap<V>, g: &Grid, h: u8, mask: &Vec<bool>)
    ensures
        final(m)@ == without_keys(old(m)@, |k: (u32, u32, usize)| marked_key(*g, h, mask@, k)),
{
    let keys = m.key_list();
    let ghost m0 = m@;
    let mut i: usize = 0;
    while i < keys.len()
        invariant
            i <= keys@.len(),
            forall|k: (u32, u32, usize)| #[trigger] m0.contains_key(k) ==> keys@.contains(k),
            m@ == without_keys(m0, |k: (u32, u32, usize)| marked_key(*g, h, mask@, k) && keys@.take(i as int).contains(k)),
        decreases keys@.len() - i,
    {
        let k = keys[i];
        let ghost before = m@;
        if key_marked(g, h, mask, k) {
            m.remove(k);
        }
        proof {
            assert(keys@.take(i + 1) =~= keys@.take(i as int).push(k));
            lemma_push_contains(keys@.take(i as int), k);
            assert(m@ =~= without_keys(
                m0,
                |q: (u32, u32, usize)| marked_key(*g, h, mask@, q) && keys@.take(i + 1).contains(q),
            ));
        }
        i += 1;
    }
    proof {
        assert(keys@.take(i as int) =~= keys@);
        assert(m@ =~= without_keys(m0, |k: (u32, u32, usize)| marked_key(*g, h, mask@, k)));
    }
}

fn drop_marked_buffers(m: &mut MemoryBuffers, g: &Grid, h: u8, mask: &Vec<bool>)
    ensures
        final(m)@ == without_keys(old(m)@, |k: (u32, u32, usize)| marked_key(*g, h, mask@, k)),
{
    let keys = m.key_list();
    let ghost m0 = m@;
    let mut i: usize = 0;
    while i < keys.len()
        invariant
            i <= keys@.len(),
            forall|k: (u32, u32, usize)| #[trigger] m0.contains_key(k) ==> keys@.contains(k),
            m@ == without_keys(m0, |k: (u32, u32, usize)| marked_key(*g, h, mask@, k) && keys@.take(i as int).contains(k)),
        decreases keys@.len() - i,
    {
        let k = keys[i];
        if key_marked(g, h, mask, k) {
            m.remove(k);
        }
        proof {
            assert(keys@.take(i + 1) =~= keys@.take(i as int).push(k));
            lemma_push_contains(keys@.take(i as int), k);
            assert(m@ =~= without_keys(
                m0,
                |q: (u32, u32, usize)| marked_key(*g, h, mask@, q) && keys@.take(i + 1).contains(q),
            ));
        }
        i += 1;
    }
    proof {
        assert(keys@.take(i as int) =~= keys@);
        assert(m@ =~= without_keys(m0, |k: (u32, u32, usize)| marked_key(*g, h, mask@, k)));
    }
}

/// The activation counter `k` belongs to head `h` and a slot marked in `mask`.
pub open spec fn marked_counter(h: u8, mask: Seq<bool>, k: (u8, usize)) -> bool {
    k.0 == h && k.1 < mask.len() && mask[k.1 as int]
}

fn drop_marked_counters(m: &mut ActivationCounters, h: u8, mask: &Vec<bool>)
    ensures
        final(m)@ == without_keys(old(m)@, |k: (u8, usize)| marked_counter(h, mask@, k)),
{
    let keys = m.key_list();
    let ghost m0 = m@;
    let mut i: usize = 0;
    while i < keys.len()
        invariant
            i <= keys@.len(),
            forall|k: (u8, usize)| #[trigger] m0.contains_key(k) ==> keys@.contains(k),
            m@ == without_keys(m0, |k: (u8, usize)| marked_counter(h, mask@, k) && keys@.take(i as int).contains(k)),
        decreases keys@.len() - i,
    {
        let k = keys[i];
        if k.0 == h && k.1 < mask.len() && mask[k.1] {
            m.remove(k);
        }
        proof {
            assert(keys@.take(i + 1) =~= keys@.take(i as int).push(k));
            lemma_push_contains(keys@.take(i as int), k);
            assert(m@ =~= without_keys(m0, |q: (u8, usize)| marked_counter(h, mask@, q) && keys@.take(i + 1).contains(q)));
        }
        i += 1;
    }
    proof {
        assert(keys@.take(i as int) =~= keys@);
        assert(m@ =~= without_keys(m0, |k: (u8, usize)| marked_counter(h, mask@, k)));
    }
}

/// The state kept for key `k` belongs to a changed slot of a head below `hs`.
pub open spec fn stale_below(g: Grid, old_index: RuleIndex, new_index: RuleIndex, hs: int, k: (u32, u32, usize)) -> bool {
    stale_state_key(g, old_index, new_index, k) && g.spec_cell(k.0 as int, k.1 as int).value.0.0 < hs
}

/// The state kept for key `k` belongs to head `h` at its position of the grid and to a
/// slot that differs between the rules `o` and `n` of that head.
pub open spec fn head_slot_stale(g: Grid, h: u8, o: Seq<Rule>, n: Seq<Rule>, k: (u32, u32, usize)) -> bool {
    g.spec_in_grid(k.0 as int, k.1 as int) && g.spec_cell(k.0 as int, k.1 as int).value.0.0 == h && slot_changed(
        o,
        n,
        k.2 as int,
    )
}

impl TickState {
    /// Drop the state kept for the rule slots of head `h` that differ between its rules `o`
    /// and `n`: the counters, buffers and feedback of positions whose cell holds `h`, and the
    /// activation counters of those slots.
    pub fn invalidate_head(&mut self, h: u8, o: &[Rule], n: &[Rule], grid: &Grid)
        ensures
            final(self).starvation@ == without_keys(
                old(self).starvation@,
                |k: (u32, u32, usize)| head_slot_stale(*grid, h, o@, n@, k),
            ),
            final(self).feedback@ == without_keys(
                old(self).feedback@,
                |k: (u32, u32, usize)| head_slot_stale(*grid, h, o@, n@, k),
            ),
            final(self).memory@ == without_keys(
                old(self).memory@,
                |k: (u32, u32, usize)| head_slot_stale(*grid, h, o@, n@, k),
            ),
            final(self).activations@ == without_keys(
                old(self).activations@,
                |k: (u8, usize)| k.0 == h && slot_changed(o@, n@, k.1 as int),
            ),
    {
        let mask = changed_slots(o, n);
        drop_marked_values(&mut self.starvation, grid, h, &mask);
        drop_marked_values(&mut self.feedback, grid, h, &mask);
        drop_marked_buffers(&mut self.memory, grid, h, &mask);
        drop_marked_counters(&mut self.activations, h, &mask);
        proof {
            assert forall|k: (u32, u32, usize)| #[trigger] marked_key(*grid, h, mask@, k) == head_slot_stale(
                *grid,
                h,
                o@,
                n@,
                k,
            ) by {
                if k.2 < mask@.len() {
                    assert(mask@[k.2 as int] == slot_changed(o@, n@, k.2 as int));
                }
            }
            assert forall|k: (u8, usize)| #[trigger] marked_counter(h, mask@, k) == (k.0 == h && slot_changed(
                o@,
                n@,
                k.1 as int,
            )) by {
                if k.1 < mask@.len() {
                    assert(mask@[k.1 as int] == slot_changed(o@, n@, k.1 as int));
                }
            }
            assert(self.starvation@ =~= without_keys(
                old(self).starvation@,
                |k: (u32, u32, usize)| head_slot_stale(*grid, h, o@, n@, k),
            ));
            assert(self.feedback@ =~= without_keys(
                old(self).feedback@,
                |k: (u32, u32, usize)| head_slot_stale(*grid, h, o@, n@, k),
            ));
            assert(self.memory@ =~= without_keys(
                old(self).memory@,
                |k: (u32, u32, usize)| head_slot_stale(*grid, h, o@, n@, k),
            ));
            assert(self.activations@ =~= without_keys(
                old(self).activations@,
                |k: (u8, usize)| k.0 == h && slot_changed(o@, n@, k.1 as int),
            ));
        }
    }

    /// Drop the state kept for rule slots that differ between `old_index` and `new_index`:
    /// the counters, buffers and feedback of a position whose cell holds the head of such a
    /// slot, and the activation counters of the slot.
    pub fn invalidate_stale(&mut self, old_index: &RuleIndex, new_index: &RuleIndex, grid: &Grid)
        ensures
            final(self).starvation@ == without_keys(
                old(self).starvation@,
                |k: (u32, u32, usize)| stale_state_key(*grid, *old_index, *new_index, k),
            ),
            final(self).feedback@ == without_keys(
                old(self).feedback@,
                |k: (u32, u32, usize)| stale_state_key(*grid, *old_index, *new_index, k),
            ),
            final(self).memory@ == without_keys(
                old(self).memory@,
                |k: (u32, u32, usize)| stale_state_key(*grid, *old_index, *new_index, k),
            ),
            final(self).activations@ == without_keys(
                old(self).activations@,
                |k: (u8, usize)| rule_changed(*old_index, *new_index, k.0 as int, k.1 as int),
            ),
    {
        let ghost s0 = self.starvation@;
        let ghost f0 = self.feedback@;
        let ghost m0 = self.memory@;
        let ghost a0 = self.activations@;
        let mut h: u16 = 0;
        while h < 256
            invariant
                h <= 256,
                self.starvation@ == without_keys(
                    s0,
                    |k: (u32, u32, usize)| stale_below(*grid, *old_index, *new_index, h as int, k),
                ),
                self.feedback@ == without_keys(
                    f0,
                    |k: (u32, u32, usize)| stale_below(*grid, *old_index, *new_index, h as int, k),
                ),
                self.memory@ == without_keys(
                    m0,
                    |k: (u32, u32, usize)| stale_below(*grid, *old_index, *new_index, h as int, k),
                ),
                self.activations@ == without_keys(
                    a0,
                    |k: (u8, usize)| k.0 < h && rule_changed(*old_index, *new_index, k.0 as int, k.1 as int),
                ),
            decreases 256 - h,
        {
            let hb = h as u8;
            let o = old_index.rules(hb);
            let n = new_index.rules(hb);
            self.invalidate_head(hb, o, n, grid);
            proof {
                assert forall|k: (u32, u32, usize)| (#[trigger] stale_below(*grid, *old_index, *new_index, h + 1, k)) == (
                stale_below(*grid, *old_index, *new_index, h as int, k) || head_slot_stale(*grid, hb, o@, n@, k)) by {}
                assert(self.starvation@ =~= without_keys(
                    s0,
                    |k: (u32, u32, usize)| stale_below(*grid, *old_index, *new_index, h + 1, k),
                ));
                assert(self.feedback@ =~= without_keys(
                    f0,
                    |k: (u32, u32, usize)| stale_below(*grid, *old_index, *new_index, h + 1, k),
                ));
                assert(self.memory@ =~= without_keys(
                    m0,
                    |k: (u32, u32, usize)| stale_below(*grid, *old_index, *new_index, h + 1, k),
                ));
                assert(self.activations@ =~= without_keys(
                    a0,
                    |k: (u8, usize)| k.0 < h + 1 && rule_changed(*old_index, *new_index, k.0 as int, k.1 as int),
                ));
            }
            h += 1;
        }
        proof {
            assert(self.starvation@ =~= without_keys(
                s0,
                |k: (u32, u32, usize)| stale_state_key(*grid, *old_index, *new_index, k),
            ));
            assert(self.feedback@ =~= without_keys(
                f0,
                |k: (u32, u32, usize)| stale_state_key(*grid, *old_index, *new_index, k),
            ));
            assert(self.memory@ =~= without_keys(
                m0,
                |k: (u32, u32, usize)| stale_state_key(*grid, *old_index, *new_index, k),
            ));
            assert(self.activations@ =~= without_keys(
                a0,
                |k: (u8, usize)| rule_changed(*old_index, *new_index, k.0 as int, k.1 as int),
            ));
        }
    }
}

proof fn lemma_push_contains<T>(s: Seq<T>, x: T)
    ensures
        forall|q: T| #[trigger] s.push(x).contains(q) == (s.contains(q) || q == x),
{
    assert forall|q: T| #[trigger] s.push(x).contains(q) == (s.contains(q) || q == x) by {
        if s.push(x).contains(q) {
            let j = choose|j: int| 0 <= j < s.push(x).len() && s.push(x)[j] == q;
            if j < s.len() {
                assert(s[j] == q);
            }
        }
        if s.contains(q) {
            let j = choose|j: int| 0 <= j < s.len() && s[j] == q;
            assert(s.push(x)[j] == q);
        }
        if q == x {
            assert(s.push(x)[s.len() as int] == q);
        }
    }
}

/// `s1` is `s0` without the state of rule slots that differ between `old_index` and
/// `new_index` (see `TickState::invalidate_stale`).
pub open spec fn state_invalidated(s1: TickState, s0: TickState, g: Grid, old_index: RuleIndex, new_index: RuleIndex) -> bool {
    &&& s1.starvation@ == without_keys(s0.starvation@, |k: (u32, u32, usize)| stale_state_key(g, old_index, new_index, k))
    &&& s1.feedback@ == without_keys(s0.feedback@, |k: (u32, u32, usize)| stale_state_key(g, old_index, new_index, k))
    &&& s1.memory@ == without_keys(s0.memory@, |k: (u32, u32, usize)| stale_state_key(g, old_index, new_index, k))
    &&& s1.activations@ == without_keys(
        s0.activations@,
        |k: (u8, usize)| rule_changed(old_index, new_index, k.0 as int, k.1 as int),
    )
}

} // verus!
