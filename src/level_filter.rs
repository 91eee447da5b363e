//! Per-target minimum levels, and the decision whether a record is shown.
use vstd::prelude::*;

use crate::proto::log_level::LogLevel;
use crate::text::starts_with;

verus! {

/// The view of a filter key: `None` is the default entry, `Some(t)` the
/// entry for the target path `t` and the paths below it.
pub open spec fn key_view(k: Option<String>) -> Option<Seq<char>> {
    match k {
        Option::Some(s) => Option::Some(s@),
        Option::None => Option::None,
    }
}

/// The views of a list of filter entries.
pub open spec fn entries_view(es: Seq<(Option<String>, LogLevel)>) -> Seq<(Option<Seq<char>>, LogLevel)> {
    es.map_values(|e: (Option<String>, LogLevel)| (key_view(e.0), e.1))
}

/// No key occurs twice among the entries.
pub open spec fn keys_unique(es: Seq<(Option<Seq<char>>, LogLevel)>) -> bool {
    forall|i: int, j: int| 0 <= i < j < es.len() ==> (#[trigger] es[i]).0 != (#[trigger] es[j]).0
}

/// The map that setting each entry in turn gives: a later entry for a key
/// replaces an earlier one.
pub open spec fn map_of(es: Seq<(Option<Seq<char>>, LogLevel)>) -> Map<Option<Seq<char>>, LogLevel>
    decreases es.len(),
{
    if es.len() == 0 {
        Map::empty()
    } else {
        map_of(es.drop_last()).insert(es.last().0, es.last().1)
    }
}

/// `key` is `target` itself or one of the paths above it: the components
/// of `key` begin `target`, compared whole, with `::` between components.
pub open spec fn path_prefix(key: Seq<char>, target: Seq<char>) -> bool {
    key == target || (key.len() + 2 <= target.len() && target.subrange(0, (key.len() + 2) as int) == key
        + "::"@)
}

/// `key` is the longest key of `m` that is a path prefix of `target`.
pub open spec fn most_specific(m: Map<Option<Seq<char>>, LogLevel>, target: Seq<char>, key: Seq<char>) -> bool {
    &&& m.contains_key(Option::Some(key))
    &&& path_prefix(key, target)
    &&& forall|k: Seq<char>|
        m.contains_key(Option::Some(k)) && #[trigger] path_prefix(k, target) ==> k.len() <= key.len()
}

/// The minimum level that governs `target`: that of its most specific key,
/// else that of the default entry; `None` when neither exists.
pub open spec fn threshold(m: Map<Option<Seq<char>>, LogLevel>, target: Option<Seq<char>>) -> Option<LogLevel> {
    if target is Some && exists|k: Seq<char>| most_specific(m, target->0, k) {
        Option::Some(m[Option::Some(choose|k: Seq<char>| most_specific(m, target->0, k))])
    } else if m.contains_key(Option::None) {
        Option::Some(m[Option::None])
    } else {
        Option::None
    }
}

/// Whether a record of `level` from `target` is shown under `m`.
pub open spec fn shows(m: Map<Option<Seq<char>>, LogLevel>, target: Option<Seq<char>>, level: LogLevel) -> bool {
    match threshold(m, target) {
        Option::Some(t) => level.rank() >= t.rank(),
        Option::None => false,
    }
}

/// Raising the level of a record never hides it: if a record of `low` from
/// `target` is shown, so is one of any level ranked at least as high.
pub proof fn lemma_show_monotonic(
    m: Map<Option<Seq<char>>, LogLevel>,
    target: Option<Seq<char>>,
    low: LogLevel,
    high: LogLevel,
)
    requires
        shows(m, target, low),
        low.rank() <= high.rank(),
    ensures
        shows(m, target, high),
{
}

pub proof fn lemma_map_of_dom(es: Seq<(Option<Seq<char>>, LogLevel)>, k: Option<Seq<char>>)
    ensures
        map_of(es).contains_key(k) <==> exists|i: int| 0 <= i < es.len() && (#[trigger] es[i]).0 == k,
    decreases es.len(),
{
    if es.len() > 0 {
        let d = es.drop_last();
        lemma_map_of_dom(d, k);
        if map_of(es).contains_key(k) && k != es.last().0 {
            let i = choose|i: int| 0 <= i < d.len() && (#[trigger] d[i]).0 == k;
            assert(es[i] == d[i]);
        }
        if exists|i: int| 0 <= i < es.len() && (#[trigger] es[i]).0 == k {
            let i = choose|i: int| 0 <= i < es.len() && (#[trigger] es[i]).0 == k;
            if i < d.len() {
                assert(d[i] == es[i]);
            }
        }
    }
}

pub proof fn lemma_map_of_value(es: Seq<(Option<Seq<char>>, LogLevel)>, i: int)
    requires
        keys_unique(es),
        0 <= i < es.len(),
    ensures
        map_of(es).contains_key(es[i].0),
        map_of(es)[es[i].0] == es[i].1,
    decreases es.len(),
{
    let d = es.drop_last();
    if i < es.len() - 1 {
        assert(d[i] == es[i]);
        assert(keys_unique(d)) by {
            assert forall|a: int, b: int| 0 <= a < b < d.len() implies (#[trigger] d[a]).0 != (#[trigger] d[b]).0 by {
                assert(d[a] == es[a] && d[b] == es[b]);
            }
        }
        lemma_map_of_value(d, i);
        assert(es[i].0 != es[es.len() - 1].0);
    }
}

pub proof fn lemma_map_of_remove(es: Seq<(Option<Seq<char>>, LogLevel)>, i: int)
    requires
        keys_unique(es),
        0 <= i < es.len(),
    ensures
        map_of(es.remove(i)) == map_of(es).remove(es[i].0),
    decreases es.len(),
{
    let d = es.drop_last();
    assert(keys_unique(d)) by {
        assert forall|a: int, b: int| 0 <= a < b < d.len() implies (#[trigger] d[a]).0 != (#[trigger] d[b]).0 by {
            assert(d[a] == es[a] && d[b] == es[b]);
        }
    }
    if i == es.len() - 1 {
        assert(es.remove(i) =~= d);
        lemma_map_of_dom(d, es[i].0);
        assert(!map_of(d).contains_key(es[i].0)) by {
            if map_of(d).contains_key(es[i].0) {
                let j = choose|j: int| 0 <= j < d.len() && (#[trigger] d[j]).0 == es[i].0;
                assert(d[j] == es[j]);
            }
        }
        assert(map_of(es).remove(es[i].0) =~= map_of(d));
    } else {
        assert(es.remove(i).drop_last() =~= d.remove(i));
        assert(es.remove(i).last() == es.last());
        assert(d[i] == es[i]);
        lemma_map_of_remove(d, i);
        assert(es[i].0 != es.last().0);
        assert(map_of(es.remove(i)) =~= map_of(es).remove(es[i].0));
    }
}

/// The minimum level to show for each target, with an optional default.
/// No key occurs twice.
#[derive(Debug)]
pub struct LevelFilter {
    matrix: Vec<(Option<String>, LogLevel)>,
}

impl View for LevelFilter {
    type V = Map<Option<Seq<char>>, LogLevel>;

    closed spec fn view(&self) -> Map<Option<Seq<char>>, LogLevel> {
        map_of(entries_view(self.matrix@))
    }
}

/// Two path prefixes of one target: the shorter is a prefix of the longer.
proof fn lemma_path_prefixes_nested(a: Seq<char>, b: Seq<char>, t: Seq<char>)
    requires
        path_prefix(a, t),
        path_prefix(b, t),
        a.len() <= b.len(),
    ensures
        b.subrange(0, a.len() as int) == a,
{
    assert(t.subrange(0, a.len() as int) =~= a) by {
        if a != t {
            assert(t.subrange(0, a.len() as int) =~= t.subrange(0, (a.len() + 2) as int).subrange(0, a.len() as int));
            assert((a + "::"@).subrange(0, a.len() as int) =~= a);
        }
    }
    assert(t.subrange(0, b.len() as int) =~= b) by {
        if b != t {
            assert(t.subrange(0, b.len() as int) =~= t.subrange(0, (b.len() + 2) as int).subrange(0, b.len() as int));
            assert((b + "::"@).subrange(0, b.len() as int) =~= b);
        }
    }
    assert(b.subrange(0, a.len() as int) =~= t.subrange(0, b.len() as int).subrange(0, a.len() as int));
}

/// Whether `key` is a path prefix of `target`.
fn is_path_prefix(key: &String, target: &String) -> (r: bool)
    ensures
        r == path_prefix(key@, target@),
{
    if *key == *target {
        return true;
    }
    let with_separator = key.clone().concat("::");
    proof {
        reveal_strlit("::");
    }
    starts_with(target.as_str(), with_separator.as_str())
}

/// A copy of a filter key.
fn copy_key(k: &Option<String>) -> (r: Option<String>)
    ensures
        key_view(r) == key_view(*k),
{
    match k {
        Option::Some(s) => Option::Some(s.clone()),
        Option::None => Option::None,
    }
}

impl Clone for LevelFilter {
    fn clone(&self) -> (r: LevelFilter)
        ensures
            r@ == self@,
    {
        proof {
            use_type_invariant(self);
        }
        let mut matrix: Vec<(Option<String>, LogLevel)> = Vec::new();
        let n = self.matrix.len();
        let mut i: usize = 0;
        while i < n
            invariant
                n == self.matrix@.len(),
                i <= n,
                entries_view(matrix@) == entries_view(self.matrix@).take(i as int),
            decreases n - i,
        {
            let key = copy_key(&self.matrix[i].0);
            let level = self.matrix[i].1;
            let ghost before = matrix@;
            matrix.push((key, level));
            proof {
                assert(before.len() == i) by {
                    assert(entries_view(before).len() == before.len());
                }
                assert(matrix@[i as int] == (key, level));
                assert(entries_view(matrix@)[i as int] == entries_view(self.matrix@)[i as int]);
                assert(entries_view(matrix@) =~= entries_view(self.matrix@).take(i + 1));
            }
            i += 1;
        }
        proof {
            assert(entries_view(self.matrix@).take(n as int) =~= entries_view(self.matrix@));
        }
        LevelFilter { matrix }
    }
}

/// Whether two filter keys are the same.
fn same_key(a: &Option<String>, b: &Option<String>) -> (r: bool)
    ensures
        r == (key_view(*a) == key_view(*b)),
{
    match (a, b) {
        (Option::Some(x), Option::Some(y)) => *x == *y,
        (Option::None, Option::None) => true,
        _ => false,
    }
}

/// The position of the entry for `key` in `matrix`, if there is one.
fn find_key(matrix: &Vec<(Option<String>, LogLevel)>, key: &Option<String>) -> (r: Option<usize>)
    ensures
        match r {
            Option::Some(i) => i < matrix@.len() && entries_view(matrix@)[i as int].0 == key_view(*key),
            Option::None => forall|i: int|
                0 <= i < matrix@.len() ==> (#[trigger] entries_view(matrix@)[i]).0 != key_view(*key),
        },
{
    let n = matrix.len();
    let mut i: usize = 0;
    while i < n
        invariant
            n == matrix@.len(),
            i <= n,
            forall|j: int| 0 <= j < i ==> (#[trigger] entries_view(matrix@)[j]).0 != key_view(*key),
        decreases n - i,
    {
        if same_key(&matrix[i].0, key) {
            return Option::Some(i);
        }
        i += 1;
    }
    Option::None
}

/// Removes the entry for `key` from `matrix`, if there is one.
fn remove_key(matrix: &mut Vec<(Option<String>, LogLevel)>, key: &Option<String>)
    requires
        keys_unique(entries_view(old(matrix)@)),
    ensures
        keys_unique(entries_view(final(matrix)@)),
        map_of(entries_view(final(matrix)@)) == map_of(entries_view(old(matrix)@)).remove(key_view(*key)),
        forall|i: int|
            0 <= i < final(matrix)@.len() ==> (#[trigger] entries_view(final(matrix)@)[i]).0 != key_view(*key),
{
    let ghost es = entries_view(matrix@);
    let ghost k = key_view(*key);
    match find_key(matrix, key) {
        Option::Some(i) => {
            proof {
                lemma_map_of_remove(es, i as int);
            }
            matrix.remove(i);
            proof {
                assert(entries_view(matrix@) =~= es.remove(i as int));
                assert forall|a: int| 0 <= a < matrix@.len() implies (#[trigger] entries_view(matrix@)[a]).0 != k by {
                    if a < i {
                        assert(entries_view(matrix@)[a] == es[a]);
                    } else {
                        assert(entries_view(matrix@)[a] == es[a + 1]);
                    }
                }
                assert forall|a: int, b: int| 0 <= a < b < matrix@.len() implies (#[trigger] entries_view(matrix@)[a]).0
                    != (#[trigger] entries_view(matrix@)[b]).0 by {
                    let ea = if a < i { a } else { a + 1 };
                    let eb = if b < i { b } else { b + 1 };
                    assert(entries_view(matrix@)[a] == es[ea]);
                    assert(entries_view(matrix@)[b] == es[eb]);
                }
            }
        },
        Option::None => {
            proof {
                lemma_map_of_dom(es, k);
                assert(map_of(es).remove(k) =~= map_of(es));
            }
        },
    }
}

impl LevelFilter {
    #[verifier::type_invariant]
    spec fn keys_distinct(&self) -> bool {
        keys_unique(entries_view(self.matrix@))
    }

    /// The filter that setting each entry of `matrix` in turn gives; a
    /// later entry for a key replaces an earlier one.
    pub fn new(matrix: Vec<(Option<String>, LogLevel)>) -> (r: LevelFilter)
        ensures
            r@ == map_of(entries_view(matrix@)),
    {
        let empty: Vec<(Option<String>, LogLevel)> = Vec::new();
        proof {
            assert(entries_view(matrix@).take(0) =~= Seq::empty());
            assert(entries_view(empty@) =~= Seq::empty());
        }
        let mut r = LevelFilter { matrix: empty };
        for entry in it: matrix.into_iter()
            invariant
                entries_view(it.seq()) == entries_view(matrix@),
                r@ == map_of(entries_view(matrix@).take(it.index() as int)),
        {
            let ghost k = it.index() as int;
            let ghost es = entries_view(matrix@);
            proof {
                assert(es.take(k + 1).drop_last() =~= es.take(k));
                assert(es[k] == (key_view(entry.0), entry.1));
                assert(es.take(k + 1).last() == es[k]);
            }
            let (target, level) = entry;
            r = r.set_level(target, level);
        }
        proof {
            assert(entries_view(matrix@).take(entries_view(matrix@).len() as int) =~= entries_view(matrix@));
        }
        r
    }

    /// Whether a record of `level` from `target` is shown: its level is at
    /// least the one set for the longest key that is a path prefix of the
    /// target, or, where no key is, the one of the default entry. Without
    /// either, the record is hidden.
    pub fn show(&self, target: Option<String>, level: &LogLevel) -> (r: bool)
        ensures
            r == shows(self@, key_view(target), *level),
    {
        proof {
            use_type_invariant(self);
        }
        let ghost es = entries_view(self.matrix@);
        let ghost t = key_view(target);
        let n = self.matrix.len();
        let mut best: Option<usize> = Option::None;
        let mut default: Option<usize> = Option::None;
        let mut i: usize = 0;
        while i < n
            invariant
                n == self.matrix@.len(),
                es == entries_view(self.matrix@),
                t == key_view(target),
                i <= n,
                match default {
                    Option::Some(d) => d < i && es[d as int].0 is None,
                    Option::None => forall|j: int| 0 <= j < i ==> (#[trigger] es[j]).0 is Some,
                },
                match best {
                    Option::Some(b) => {
                        &&& b < i
                        &&& t is Some
                        &&& es[b as int].0 is Some
                        &&& path_prefix(es[b as int].0->0, t->0)
                        &&& forall|j: int|
                            0 <= j < i && (#[trigger] es[j]).0 is Some && path_prefix(es[j].0->0, t->0)
                                ==> es[j].0->0.len() <= es[b as int].0->0.len()
                    },
                    Option::None => forall|j: int|
                        0 <= j < i ==> !(t is Some && (#[trigger] es[j]).0 is Some && path_prefix(
                            es[j].0->0,
                            t->0,
                        )),
                },
            decreases n - i,
        {
            match &self.matrix[i].0 {
                Option::None => {
                    default = Option::Some(i);
                },
                Option::Some(k) => {
                    match &target {
                        Option::Some(tg) => {
                            if is_path_prefix(k, tg) {
                                match best {
                                    Option::None => {
                                        best = Option::Some(i);
                                    },
                                    Option::Some(b) => {
                                        match &self.matrix[b].0 {
                                            Option::Some(bk) => {
                                                let longer = starts_with(k.as_str(), bk.as_str());
                                                proof {
                                                    if bk@.len() <= k@.len() {
                                                        lemma_path_prefixes_nested(bk@, k@, tg@);
                                                    }
                                                }
                                                if longer {
                                                    best = Option::Some(i);
                                                }
                                            },
                                            Option::None => {},
                                        }
                                    },
                                }
                            }
                        },
                        Option::None => {},
                    }
                },
            }
            i += 1;
        }
        let governing: Option<LogLevel> = match best {
            Option::Some(b) => Option::Some(self.matrix[b].1),
            Option::None => match default {
                Option::Some(d) => Option::Some(self.matrix[d].1),
                Option::None => Option::None,
            },
        };
        proof {
            let m = self@;
            assert(m == map_of(es));
            match best {
                Option::Some(b) => {
                    let bk = es[b as int].0->0;
                    lemma_map_of_value(es, b as int);
                    assert forall|k: Seq<char>| m.contains_key(Option::Some(k)) && #[trigger] path_prefix(k, t->0)
                        implies k.len() <= bk.len() by {
                        lemma_map_of_dom(es, Option::Some(k));
                        let j = choose|j: int| 0 <= j < es.len() && (#[trigger] es[j]).0 == Option::Some(k);
                    }
                    assert(most_specific(m, t->0, bk));
                    let c = choose|k: Seq<char>| most_specific(m, t->0, k);
                    lemma_path_prefixes_nested(c, bk, t->0);
                    assert(c == bk);
                },
                Option::None => {
                    if t is Some && exists|k: Seq<char>| most_specific(m, t->0, k) {
                        let k = choose|k: Seq<char>| most_specific(m, t->0, k);
                        lemma_map_of_dom(es, Option::Some(k));
                        let j = choose|j: int| 0 <= j < es.len() && (#[trigger] es[j]).0 == Option::Some(k);
                        assert(false);
                    }
                    lemma_map_of_dom(es, Option::None);
                    match default {
                        Option::Some(d) => {
                            lemma_map_of_value(es, d as int);
                        },
                        Option::None => {
                            if m.contains_key(Option::None) {
                                let j = choose|j: int| 0 <= j < es.len() && (#[trigger] es[j]).0 == Option::<Seq<char>>::None;
                                assert(false);
                            }
                        },
                    }
                },
            }
            assert(governing == threshold(m, t));
        }
        match governing {
            Option::Some(th) => level.num() >= th.num(),
            Option::None => false,
        }
    }

    /// The entries of the filter, each key once.
    pub fn matrix(&self) -> (r: &Vec<(Option<String>, LogLevel)>)
        ensures
            keys_unique(entries_view(r@)),
            map_of(entries_view(r@)) == self@,
    {
        proof {
            use_type_invariant(self);
        }
        &self.matrix
    }

    /// The filter with `target` set to `level`, whether or not it was set.
    pub fn set_level(self, target: Option<String>, level: LogLevel) -> (r: LevelFilter)
        ensures
            r@ == self@.insert(key_view(target), level),
    {
        proof {
            use_type_invariant(&self);
        }
        let mut matrix = self.matrix;
        let ghost es0 = entries_view(matrix@);
        remove_key(&mut matrix, &target);
        let ghost es1 = entries_view(matrix@);
        let ghost k = key_view(target);
        matrix.push((target, level));
        proof {
            let es2 = entries_view(matrix@);
            assert(es2 =~= es1.push((k, level)));
            assert(es2.drop_last() =~= es1);
            assert(map_of(es2) =~= map_of(es0).insert(k, level));
            assert forall|a: int, b: int| 0 <= a < b < es2.len() implies (#[trigger] es2[a]).0 != (#[trigger] es2[b]).0 by {
                assert(es2[a] == es1[a]);
                if b < es1.len() {
                    assert(es2[b] == es1[b]);
                }
            }
        }
        LevelFilter { matrix }
    }

    /// The filter that shows only `target` and the paths below it, from
    /// `level` up: the default hides everything and `target` is set to
    /// `level`.
    pub fn only(self, target: String, level: LogLevel) -> (r: LevelFilter)
        ensures
            r@ == self@.insert(Option::None, LogLevel::Off).insert(Option::Some(target@), level),
    {
        self.set_level(Option::None, LogLevel::Off).set_level(Option::Some(target), level)
    }

    /// The filter without an entry for `target`.
    pub fn remove(self, target: &Option<String>) -> (r: LevelFilter)
        ensures
            r@ == self@.remove(key_view(*target)),
    {
        proof {
            use_type_invariant(&self);
        }
        let mut matrix = self.matrix;
        remove_key(&mut matrix, target);
        LevelFilter { matrix }
    }
}

} // verus!
