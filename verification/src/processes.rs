//! The process table: which processes it shows, and in what order.

use vstd::prelude::*;
use crate::text::{
    chars_less, chars_of, lemma_text_less_irreflexive, lemma_text_less_total,
    lemma_text_less_transitive, text_less,
};

verus! {

/// `before` orders the row numbers below `n` strictly and totally.
pub open spec fn strict_total_order(before: spec_fn(int, int) -> bool, n: int) -> bool {
    &&& forall|a: int| 0 <= a < n ==> !#[trigger] before(a, a)
    &&& forall|a: int, b: int, c: int|
        0 <= a < n && 0 <= b < n && 0 <= c < n && #[trigger] before(a, b) && #[trigger] before(b, c)
            ==> before(a, c)
    &&& forall|a: int, b: int|
        0 <= a < n && 0 <= b < n && a != b ==> #[trigger] before(a, b) || #[trigger] before(b, a)
}

/// `order` lists each row number below `n` exactly once, each row before the
/// rows that `before` puts after it.
pub open spec fn is_ordering(order: Seq<usize>, n: int, before: spec_fn(int, int) -> bool) -> bool {
    &&& order.len() == n
    &&& forall|k: int| 0 <= k < n ==> #[trigger] order[k] < n
    &&& forall|x: usize| x < n ==> order.contains(x)
    &&& forall|k: int, l: int| 0 <= k < l < n ==> before(#[trigger] order[k] as int, #[trigger] order[l] as int)
}

/// Lists the rows `0..n` in the order `before` gives them, by insertion;
/// `precedes(a, b)` decides `before(a, b)`.
fn order_rows<F: Fn(usize, usize) -> bool>(n: usize, Ghost(before): Ghost<spec_fn(int, int) -> bool>, precedes: F) -> (order: Vec<usize>)
    requires
        strict_total_order(before, n as int),
        forall|a: usize, b: usize| a < n && b < n ==> #[trigger] precedes.requires((a, b)),
        forall|a: usize, b: usize, r: bool| a < n && b < n && #[trigger] precedes.ensures((a, b), r) ==> r == before(a as int, b as int),
    ensures
        is_ordering(order@, n as int, before),
{
    let mut order: Vec<usize> = Vec::new();
    let mut i: usize = 0;
    while i < n
        invariant
            i <= n,
            strict_total_order(before, n as int),
            forall|a: usize, b: usize| a < n && b < n ==> #[trigger] precedes.requires((a, b)),
            forall|a: usize, b: usize, r: bool| a < n && b < n && #[trigger] precedes.ensures((a, b), r) ==> r == before(a as int, b as int),
            is_ordering(order@, i as int, before),
        decreases n - i,
    {
        let mut p: usize = 0;
        while p < order.len() && precedes(order[p], i)
            invariant
                i < n,
                order.len() == i,
                p <= order.len(),
                forall|a: usize, b: usize| a < n && b < n ==> #[trigger] precedes.requires((a, b)),
                forall|a: usize, b: usize, r: bool| a < n && b < n && #[trigger] precedes.ensures((a, b), r) ==> r == before(a as int, b as int),
                is_ordering(order@, i as int, before),
                forall|k: int| 0 <= k < p ==> before(#[trigger] order@[k] as int, i as int),
            decreases order.len() - p,
        {
            p = p + 1;
        }
        let ghost old_order = order@;
        order.insert(p, i);
        proof {
            let o = order@;
            assert(o == old_order.insert(p as int, i));
            if p < i {
                assert(!before(old_order[p as int] as int, i as int));
                assert(old_order[p as int] < i);
                assert(before(i as int, old_order[p as int] as int));
            }
            assert forall|k: int, l: int| 0 <= k < l < i + 1 implies before(#[trigger] o[k] as int, #[trigger] o[l] as int) by {
                if l < p {
                    assert(o[k] == old_order[k] && o[l] == old_order[l]);
                } else if l == p {
                    assert(o[k] == old_order[k]);
                } else if k < p {
                    assert(o[k] == old_order[k] && o[l] == old_order[l - 1]);
                    assert(before(old_order[k] as int, old_order[p as int] as int) || k == p);
                    assert(before(i as int, old_order[p as int] as int));
                    if l - 1 > p {
                        assert(before(old_order[p as int] as int, old_order[l - 1] as int));
                    }
                } else if k == p {
                    assert(o[l] == old_order[l - 1]);
                    if l - 1 > p {
                        assert(before(old_order[p as int] as int, old_order[l - 1] as int));
                    }
                } else {
                    assert(o[k] == old_order[k - 1] && o[l] == old_order[l - 1]);
                }
            }
            assert forall|k: int| 0 <= k < i + 1 implies #[trigger] o[k] < i + 1 by {
                if k < p {
                    assert(o[k] == old_order[k]);
                } else if k > p {
                    assert(o[k] == old_order[k - 1]);
                }
            }
            assert forall|x: usize| x < i + 1 implies o.contains(x) by {
                if x == i {
                    assert(o[p as int] == x);
                } else {
                    assert(old_order.contains(x));
                    let k = choose|k: int| 0 <= k < old_order.len() && old_order[k] == x;
                    if k < p {
                        assert(o[k] == x);
                    } else {
                        assert(o[k + 1] == x);
                    }
                }
            }
        }
        i = i + 1;
    }
    order
}

/// Row `a` comes before row `b` when sorting stably by `keys`: its key is
/// larger (`descending`) or smaller (otherwise), or the keys are equal and it
/// came first.
pub open spec fn key_before(keys: Seq<u64>, descending: bool, a: int, b: int) -> bool {
    if keys[a] == keys[b] {
        a < b
    } else if descending {
        keys[a] > keys[b]
    } else {
        keys[a] < keys[b]
    }
}

/// Ordering rows by key, ties by position, is a strict total order.
pub proof fn lemma_key_before_order(keys: Seq<u64>, descending: bool)
    ensures
        strict_total_order(|a: int, b: int| key_before(keys, descending, a, b), keys.len() as int),
{
}

/// The stable order of the rows by `keys`, as `sort_by` with `cmp` on the
/// keys (reversed when `descending`) arranges them.
fn order_by_key(keys: &Vec<u64>, descending: bool) -> (order: Vec<usize>)
    ensures
        is_ordering(order@, keys.len() as int, |a: int, b: int| key_before(keys@, descending, a, b)),
{
    let ghost before = |a: int, b: int| key_before(keys@, descending, a, b);
    let n = keys.len();
    let precedes = |a: usize, b: usize| -> (r: bool)
        requires
            a < keys.len() && b < keys.len(),
        ensures
            r == key_before(keys@, descending, a as int, b as int),
        {
            let ka = keys[a];
            let kb = keys[b];
            if ka == kb {
                a < b
            } else if descending {
                ka > kb
            } else {
                ka < kb
            }
        };
    order_rows(n, Ghost(before), precedes)
}

/// The table's rows ordered by memory, largest first, rows with equal memory
/// in their first order: the order in which `memory[i]` is row `i`'s memory.
pub fn order_by_memory(memory: &Vec<u64>) -> (order: Vec<usize>)
    ensures
        is_ordering(order@, memory.len() as int, |a: int, b: int| key_before(memory@, true, a, b)),
{
    order_by_key(memory, true)
}

/// The keys `pids` as `u64`.
pub open spec fn widened(pids: Seq<u32>) -> Seq<u64> {
    pids.map_values(|p: u32| p as u64)
}

/// The table's rows ordered by process id, smallest first, rows with equal
/// ids in their first order: the order in which `pids[i]` is row `i`'s id.
pub fn order_by_pid(pids: &Vec<u32>) -> (order: Vec<usize>)
    ensures
        is_ordering(order@, pids.len() as int, |a: int, b: int| key_before(widened(pids@), false, a, b)),
{
    let mut keys: Vec<u64> = Vec::new();
    let mut i: usize = 0;
    while i < pids.len()
        invariant
            i <= pids.len(),
            keys@ == widened(pids@.take(i as int)),
        decreases pids.len() - i,
    {
        keys.push(pids[i] as u64);
        assert(widened(pids@.take(i + 1)) =~= widened(pids@.take(i as int)).push(pids@[i as int] as u64));
        i = i + 1;
    }
    assert(pids@.take(i as int) =~= pids@);
    order_by_key(&keys, false)
}

/// The texts of `names`.
pub open spec fn texts(names: Seq<String>) -> Seq<Seq<char>> {
    names.map_values(|s: String| s@)
}

/// Row `a` comes before row `b` when sorting stably by `names`: its name comes
/// first in the order of `<` on strings, or the names are equal and it came first.
pub open spec fn name_before(names: Seq<Seq<char>>, a: int, b: int) -> bool {
    if names[a] == names[b] {
        a < b
    } else {
        text_less(names[a], names[b])
    }
}

/// Ordering rows by name, ties by position, is a strict total order.
pub proof fn lemma_name_before_order(names: Seq<Seq<char>>)
    ensures
        strict_total_order(|a: int, b: int| name_before(names, a, b), names.len() as int),
{
    let before = |a: int, b: int| name_before(names, a, b);
    let n = names.len() as int;
    assert forall|a: int, b: int, c: int|
        0 <= a < n && 0 <= b < n && 0 <= c < n && #[trigger] before(a, b) && #[trigger] before(b, c)
        implies before(a, c) by {
        if names[a] != names[b] && names[b] != names[c] {
            lemma_text_less_transitive(names[a], names[b], names[c]);
            if names[a] == names[c] {
                lemma_text_less_transitive(names[b], names[c], names[b]);
                lemma_text_less_irreflexive(names[b]);
            }
        }
    }
    assert forall|a: int, b: int|
        0 <= a < n && 0 <= b < n && a != b implies #[trigger] before(a, b) || #[trigger] before(b, a) by {
        if names[a] != names[b] {
            lemma_text_less_total(names[a], names[b]);
        }
    }
}

/// The table's rows ordered by process name, in the order of `<` on strings,
/// rows with equal names in their first order: the order in which `names[i]`
/// is row `i`'s name.
pub fn order_by_name(names: &Vec<String>) -> (order: Vec<usize>)
    ensures
        is_ordering(order@, names.len() as int, |a: int, b: int| name_before(texts(names@), a, b)),
{
    let mut keys: Vec<Vec<char>> = Vec::new();
    let mut i: usize = 0;
    while i < names.len()
        invariant
            i <= names.len(),
            keys.len() == i,
            forall|k: int| 0 <= k < i ==> (#[trigger] keys@[k])@ == names@[k]@,
        decreases names.len() - i,
    {
        keys.push(chars_of(names[i].as_str()));
        i = i + 1;
    }
    let ghost view = texts(names@);
    assert forall|k: int| 0 <= k < keys.len() implies (#[trigger] keys@[k])@ == view[k] by {}
    proof {
        lemma_name_before_order(view);
    }
    let ghost before = |a: int, b: int| name_before(view, a, b);
    let n = keys.len();
    let precedes = |a: usize, b: usize| -> (r: bool)
        requires
            a < keys.len() && b < keys.len(),
            keys.len() == names.len(),
            forall|k: int| 0 <= k < keys.len() ==> (#[trigger] keys@[k])@ == texts(names@)[k],
        ensures
            r == name_before(texts(names@), a as int, b as int),
        {
            if chars_less(&keys[a], &keys[b]) {
                proof {
                    lemma_text_less_irreflexive(texts(names@)[a as int]);
                }
                true
            } else if chars_less(&keys[b], &keys[a]) {
                proof {
                    lemma_text_less_irreflexive(texts(names@)[a as int]);
                }
                false
            } else {
                proof {
                    if texts(names@)[a as int] != texts(names@)[b as int] {
                        lemma_text_less_total(texts(names@)[a as int], texts(names@)[b as int]);
                    }
                }
                a < b
            }
        };
    order_rows(n, Ghost(before), precedes)
}

/// What `str::to_lowercase` makes of `text`: each character replaced by its
/// Unicode lowercase mapping.
pub uninterp spec fn lowercase(text: Seq<char>) -> Seq<char>;

/// Calls `str::to_lowercase`. Claimed: the result is `lowercase` of the text,
/// a function of the text alone.
#[verifier::external_body]
fn to_lowercase(text: &str) -> (r: String)
    ensures
        r@ == lowercase(text@),
{
    text.to_lowercase()
}

/// `needle` occurs in `hay` as a run of consecutive characters, as
/// `str::contains` finds it (the empty text occurs in every text).
pub open spec fn contains_text(hay: Seq<char>, needle: Seq<char>) -> bool {
    exists|i: int|
        0 <= i && i + needle.len() <= hay.len() && #[trigger] hay.subrange(i, i + needle.len())
            == needle
}

/// Decides `contains_text(hay, needle)`.
pub fn chars_contain(hay: &Vec<char>, needle: &Vec<char>) -> (r: bool)
    ensures
        r == contains_text(hay@, needle@),
{
    if needle.len() > hay.len() {
        return false;
    }
    let last = hay.len() - needle.len();
    let mut i: usize = 0;
    while i <= last
        invariant
            last == hay.len() - needle.len(),
            needle.len() <= hay.len(),
            i <= last + 1,
            forall|k: int| 0 <= k < i ==> #[trigger] hay@.subrange(k, k + needle.len()) != needle@,
        decreases last + 1 - i,
    {
        let mut j: usize = 0;
        while j < needle.len() && hay[i + j] == needle[j]
            invariant
                i <= last,
                last == hay.len() - needle.len(),
                j <= needle.len(),
                forall|q: int| 0 <= q < j ==> hay@[i + q] == needle@[q],
            decreases needle.len() - j,
        {
            j = j + 1;
        }
        if j == needle.len() {
            assert(hay@.subrange(i as int, i + needle.len()) =~= needle@);
            return true;
        }
        assert(hay@.subrange(i as int, i + needle.len())[j as int] != needle@[j as int]);
        i = i + 1;
    }
    assert forall|k: int| 0 <= k && k + needle.len() <= hay.len() implies #[trigger] hay@.subrange(k, k + needle.len()) != needle@ by {
        assert(k < i);
    }
    false
}

/// The processes that the table shows: those with the given process id, if
/// one is given, whose lowercased name contains the given text, if one is given.
pub struct ProcessFilter {
    /// The process id asked for.
    pub pid: Option<i32>,
    /// The text asked for in names, lowercased.
    pub name: Option<String>,
}

impl ProcessFilter {
    /// The table shows the process `pid` named `name`. A process id matches
    /// the one asked for when they are equal as `u32`s, as `sysinfo`'s `Pid`s
    /// built from the same number compare.
    pub open spec fn admits(self, pid: u32, name: Seq<char>) -> bool {
        &&& match self.pid {
            Some(p) => pid == p as u32,
            None => true,
        }
        &&& match self.name {
            Some(t) => contains_text(lowercase(name), t@),
            None => true,
        }
    }

    /// The filter for an asked process id and name text; the text is lowercased.
    pub fn new(pid: Option<i32>, name: Option<&str>) -> (r: ProcessFilter)
        ensures
            r.pid == pid,
            match name {
                Some(t) => r.name matches Some(l) && l@ == lowercase(t@),
                None => r.name is None,
            },
    {
        let lowered = match name {
            Some(t) => Some(to_lowercase(t)),
            None => None,
        };
        ProcessFilter { pid, name: lowered }
    }

    /// Whether the table shows the process `pid` named `name`.
    pub fn matches(&self, pid: u32, name: &str) -> (r: bool)
        ensures
            r == self.admits(pid, name@),
    {
        match self.pid {
            Some(p) => {
                if pid != p as u32 {
                    return false;
                }
            },
            None => {},
        }
        match &self.name {
            Some(t) => {
                let lowered = to_lowercase(name);
                let hay = chars_of(lowered.as_str());
                let needle = chars_of(t.as_str());
                chars_contain(&hay, &needle)
            },
            None => true,
        }
    }
}

proof fn lemma_ordering_prefix_agrees(
    o1: Seq<usize>,
    o2: Seq<usize>,
    n: int,
    before: spec_fn(int, int) -> bool,
    k: int,
)
    requires
        strict_total_order(before, n),
        is_ordering(o1, n, before),
        is_ordering(o2, n, before),
        0 <= k <= n,
    ensures
        forall|j: int| 0 <= j < k ==> o1[j] == o2[j],
    decreases k,
{
    if k > 0 {
        lemma_ordering_prefix_agrees(o1, o2, n, before, k - 1);
        let i = k - 1;
        let a = o1[i];
        let b = o2[i];
        if a != b {
            assert(o1.contains(b));
            let p = choose|p: int| 0 <= p < o1.len() && o1[p] == b;
            assert(o2.contains(a));
            let q = choose|q: int| 0 <= q < o2.len() && o2[q] == a;
            if p < i {
                assert(o2[p] == b);
                assert(before(o2[p] as int, o2[i] as int));
            }
            if q < i {
                assert(o1[q] == a);
                assert(before(o1[q] as int, o1[i] as int));
            }
            assert(p > i && q > i);
            assert(before(o1[i] as int, o1[p] as int));
            assert(before(o2[i] as int, o2[q] as int));
            assert(before(a as int, a as int));
        }
    }
}

/// An ordering of the rows is determined by the order it follows: two
/// orderings of the same rows by the same strict total order are the same.
pub proof fn lemma_ordering_unique(o1: Seq<usize>, o2: Seq<usize>, n: int, before: spec_fn(int, int) -> bool)
    requires
        strict_total_order(before, n),
        is_ordering(o1, n, before),
        is_ordering(o2, n, before),
    ensures
        o1 == o2,
{
    lemma_ordering_prefix_agrees(o1, o2, n, before, n);
    assert(o1 =~= o2);
}

/// The key comparison compares the numbers themselves: a larger key comes
/// first in a descending order and last in an ascending one, whatever the rows.
pub proof fn lemma_key_before_compares_values(keys: Seq<u64>, a: int, b: int)
    requires
        0 <= a < keys.len(),
        0 <= b < keys.len(),
        keys[a] > keys[b],
    ensures
        key_before(keys, true, a, b),
        !key_before(keys, true, b, a),
        key_before(keys, false, b, a),
        !key_before(keys, false, a, b),
{
}

/// The keys by which rows are ordered by process id are the ids' values.
pub proof fn lemma_widened_keeps_values(pids: Seq<u32>)
    ensures
        widened(pids).len() == pids.len(),
        forall|i: int| 0 <= i < pids.len() ==> #[trigger] widened(pids)[i] as int == pids[i] as int,
{
}

/// Ordered by memory, each row has at least as much memory as every row after
/// it, and rows with equal memory keep their first order.
pub proof fn lemma_memory_order_largest_first(memory: Seq<u64>, order: Seq<usize>)
    requires
        is_ordering(order, memory.len() as int, |a: int, b: int| key_before(memory, true, a, b)),
    ensures
        forall|k: int, l: int|
            0 <= k < l < order.len() ==> memory[#[trigger] order[k] as int] as int >= memory[#[trigger] order[l] as int] as int
                && (memory[order[k] as int] == memory[order[l] as int] ==> order[k] < order[l]),
{
    assert forall|k: int, l: int| 0 <= k < l < order.len() implies memory[#[trigger] order[k] as int] as int
        >= memory[#[trigger] order[l] as int] as int && (memory[order[k] as int] == memory[order[l] as int] ==> order[k] < order[l]) by {
        assert(key_before(memory, true, order[k] as int, order[l] as int));
    }
}

/// Ordered by process id, each row's id is at most every later row's id, and
/// rows with equal ids keep their first order.
pub proof fn lemma_pid_order_smallest_first(pids: Seq<u32>, order: Seq<usize>)
    requires
        is_ordering(order, pids.len() as int, |a: int, b: int| key_before(widened(pids), false, a, b)),
    ensures
        forall|k: int, l: int|
            0 <= k < l < order.len() ==> pids[#[trigger] order[k] as int] as int <= pids[#[trigger] order[l] as int] as int
                && (pids[order[k] as int] == pids[order[l] as int] ==> order[k] < order[l]),
{
    assert forall|k: int, l: int| 0 <= k < l < order.len() implies pids[#[trigger] order[k] as int] as int
        <= pids[#[trigger] order[l] as int] as int && (pids[order[k] as int] == pids[order[l] as int] ==> order[k] < order[l]) by {
        assert(key_before(widened(pids), false, order[k] as int, order[l] as int));
        assert(widened(pids)[order[k] as int] == pids[order[k] as int] as u64);
        assert(widened(pids)[order[l] as int] == pids[order[l] as int] as u64);
    }
}

/// Ordered by name, no row's name comes after a later row's name in the order
/// of `String::cmp`, a name that begins a later row's longer name comes
/// first, and rows with equal names keep their first order.
pub proof fn lemma_name_order_sorted(names: Seq<String>, order: Seq<usize>)
    requires
        is_ordering(order, names.len() as int, |a: int, b: int| name_before(texts(names), a, b)),
    ensures
        forall|k: int, l: int|
            0 <= k < l < order.len() ==> !text_less(
                #[trigger] texts(names)[order[l] as int],
                #[trigger] texts(names)[order[k] as int],
            ) && (texts(names)[order[k] as int] == texts(names)[order[l] as int] ==> order[k] < order[l]),
{
    let t = texts(names);
    assert forall|k: int, l: int| 0 <= k < l < order.len() implies !text_less(
        #[trigger] t[order[l] as int],
        #[trigger] t[order[k] as int],
    ) && (t[order[k] as int] == t[order[l] as int] ==> order[k] < order[l]) by {
        assert(name_before(t, order[k] as int, order[l] as int));
        if t[order[k] as int] != t[order[l] as int] {
            if text_less(t[order[l] as int], t[order[k] as int]) {
                lemma_text_less_transitive(t[order[k] as int], t[order[l] as int], t[order[k] as int]);
                lemma_text_less_irreflexive(t[order[k] as int]);
            }
        } else {
            lemma_text_less_irreflexive(t[order[k] as int]);
        }
    }
}

} // verus!
