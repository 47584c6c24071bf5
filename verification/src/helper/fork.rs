use std::collections::BTreeMap;
use vstd::prelude::*;

verus! {

broadcast use {vstd::std_specs::btree::group_btree_axioms, vstd::laws_cmp::group_laws_cmp};

/// This is a helper data-structure to build the `getDataIndex` function.
/// It's very similar to a radix trie, though here it's changed
/// to simplify printing the function.
#[derive(Default, PartialEq, Debug)]
pub enum Fork<'a, V> {
    /// All children of this fork have the same (non-empty) prefix.
    Run {
        /// The prefix for this run (the common prefix of all children).
        prefix: &'a [u8],
        /// The length of the shortest item inside this fork.
        min_size: usize,
        /// The children after this run.
        remaining: Box<Fork<'a, V>>,
    },
    /// At this fork, all children start with a different byte.
    Chaotic {
        /// The length of the shortest item inside this fork.
        min_size: usize,
        /// All children of this fork, keyed (and ordered) by their first byte.
        items: BTreeMap<u8, Fork<'a, V>>,
    },
    /// At this fork an item ends. This item has the key of `total_prefix`
    /// and value of `value`; longer items continue in `remaining`.
    Empty { total_prefix: &'a [u8], value: V, remaining: Box<Fork<'a, V>> },
    /// This fork is a terminator. The item has the key of `total_prefix` and value of `value`.
    End { prefix: &'a [u8], total_prefix: &'a [u8], value: V },
    /// This fork is an empty fork. No items have been inserted yet.
    #[default]
    Nil,
}


/// `m` has at least two keys.
pub open spec fn has_two_keys<T>(m: Map<u8, T>) -> bool {
    exists|a: u8, b: u8| #![trigger m.contains_key(a), m.contains_key(b)]
        a != b && m.contains_key(a) && m.contains_key(b)
}

/// Where the bytes of `key` begin inside `total`, as the part of `total` before them.
pub open spec fn path_of(key: Seq<u8>, total: Seq<u8>) -> Seq<u8> {
    total.take(total.len() - key.len())
}

/// `key` is the trailing part of `total`.
pub open spec fn is_suffix(key: Seq<u8>, total: Seq<u8>) -> bool {
    &&& key.len() <= total.len()
    &&& total == path_of(key, total) + key
}

impl<'a, V> Fork<'a, V> {
    /// The value stored under `key`, where `key` is read relative to this fork.
    pub open spec fn lookup(self, key: Seq<u8>) -> Option<V>
        decreases self,
    {
        match self {
            Fork::Run { prefix, remaining, .. } => {
                if prefix@.is_prefix_of(key) {
                    remaining.lookup(key.skip(prefix@.len() as int))
                } else {
                    Option::None
                }
            },
            Fork::Chaotic { items, .. } => {
                if key.len() > 0 && items@.contains_key(key[0]) {
                    proof {
                        assert(decreases_to!(items => items@));
                    }
                    items@[key[0]].lookup(key.drop_first())
                } else {
                    Option::None
                }
            },
            Fork::Empty { value, remaining, .. } => {
                if key.len() == 0 {
                    Option::Some(value)
                } else {
                    remaining.lookup(key)
                }
            },
            Fork::End { prefix, value, .. } => {
                if key == prefix@ {
                    Option::Some(value)
                } else {
                    Option::None
                }
            },
            Fork::Nil => Option::None,
        }
    }

    /// The length of the shortest key inside this fork (0 for an empty fork).
    pub open spec fn min_len(self) -> nat {
        match self {
            Fork::Run { min_size, .. } => min_size as nat,
            Fork::Chaotic { min_size, .. } => min_size as nat,
            Fork::Empty { total_prefix, .. } => total_prefix@.len(),
            Fork::End { total_prefix, .. } => total_prefix@.len(),
            Fork::Nil => 0,
        }
    }

    /// Well-formedness of a fork whose keys all start with `path`.
    pub open spec fn wf_at(self, path: Seq<u8>) -> bool
        decreases self,
    {
        match self {
            Fork::Run { prefix, min_size, remaining } => {
                &&& prefix@.len() > 0
                &&& !(*remaining is Nil)
                &&& min_size == remaining.min_len()
                &&& remaining.wf_at(path + prefix@)
            },
            Fork::Chaotic { min_size, items } => {
                &&& exists|b: u8| #[trigger]
                    items@.contains_key(b) && items@[b].min_len() == min_size
                &&& forall|b: u8| #[trigger]
                    items@.contains_key(b) ==> {
                        &&& !(items@[b] is Nil)
                        &&& items@[b].min_len() >= min_size
                        &&& items@[b].wf_at(path.push(b))
                    }
            },
            Fork::Empty { total_prefix, remaining, .. } => {
                &&& total_prefix@ == path
                &&& !(*remaining is Nil)
                &&& remaining.wf_at(path)
            },
            Fork::End { prefix, total_prefix, .. } => total_prefix@ == path + prefix@,
            Fork::Nil => true,
        }
    }

    /// The canonical form that insertion keeps: a `Run` is followed by a
    /// `Chaotic` or an `Empty`, a `Chaotic` has at least two children, and
    /// the fork after an `Empty` does not hold the empty key again.
    pub open spec fn canonical(self) -> bool
        decreases self,
    {
        match self {
            Fork::Run { remaining, .. } => {
                &&& (*remaining is Chaotic || *remaining is Empty)
                &&& remaining.canonical()
            },
            Fork::Chaotic { items, .. } => {
                &&& has_two_keys(items@)
                &&& forall|b: u8| #[trigger] items@.contains_key(b) ==> items@[b].canonical()
            },
            Fork::Empty { remaining, .. } => {
                &&& remaining.lookup(Seq::empty()) is None
                &&& remaining.canonical()
            },
            _ => true,
        }
    }

    /// Well-formedness of a whole fork, in canonical form.
    pub open spec fn well_formed(self) -> bool {
        &&& self.wf_at(Seq::empty())
        &&& self.canonical()
    }
}

impl<'a, V> View for Fork<'a, V> {
    type V = Map<Seq<u8>, V>;

    /// The items of the fork: every key with its value.
    open spec fn view(&self) -> Map<Seq<u8>, V> {
        Map::new(|k: Seq<u8>| self.lookup(k) is Some, |k: Seq<u8>| self.lookup(k)->0)
    }
}

/// Every item of a well-formed fork at `path` is at least `min_len()` long,
/// counting `path`, and the fork's minimum length is at least `path`'s.
pub proof fn lemma_min_len_bounds<'a, V>(f: Fork<'a, V>, path: Seq<u8>)
    requires
        f.wf_at(path),
    ensures
        !(f is Nil) ==> f.min_len() >= path.len(),
        forall|k: Seq<u8>| #[trigger] f.lookup(k) is Some ==> path.len() + k.len() >= f.min_len(),
        !(f is Nil) ==> exists|k: Seq<u8>|
            #[trigger] f.lookup(k) is Some && path.len() + k.len() == f.min_len(),
    decreases f,
{
    match f {
        Fork::Run { prefix, min_size, remaining } => {
            let p = prefix@;
            lemma_min_len_bounds(*remaining, path + p);
            assert forall|k: Seq<u8>| #[trigger] f.lookup(k) is Some implies path.len() + k.len()
                >= f.min_len() by {
                assert(remaining.lookup(k.skip(p.len() as int)) is Some);
            }
            let k2 = choose|k: Seq<u8>|
                #[trigger] remaining.lookup(k) is Some && (path + p).len() + k.len()
                    == remaining.min_len();
            let k = p + k2;
            assert(p.is_prefix_of(k));
            assert(k.skip(p.len() as int) =~= k2);
            assert(f.lookup(k) is Some);
        },
        Fork::Chaotic { min_size, items } => {
            let b = choose|b: u8| #[trigger]
                items@.contains_key(b) && items@[b].min_len() == min_size;
            assert forall|b: u8| #[trigger] items@.contains_key(b) implies items@[b].min_len()
                >= path.len() + 1 && (forall|k: Seq<u8>| #[trigger] items@[b].lookup(k) is Some
                ==> path.len() + 1 + k.len() >= items@[b].min_len()) by {
                assert(decreases_to!(items => items@));
                lemma_min_len_bounds(items@[b], path.push(b));
            }
            assert forall|k: Seq<u8>| #[trigger] f.lookup(k) is Some implies path.len() + k.len()
                >= f.min_len() by {
                assert(items@[k[0]].lookup(k.drop_first()) is Some);
            }
            assert(decreases_to!(items => items@));
            lemma_min_len_bounds(items@[b], path.push(b));
            let k2 = choose|k: Seq<u8>|
                #[trigger] items@[b].lookup(k) is Some && path.push(b).len() + k.len()
                    == items@[b].min_len();
            let k = seq![b] + k2;
            assert(k.drop_first() =~= k2);
            assert(f.lookup(k) is Some);
        },
        Fork::Empty { total_prefix, remaining, .. } => {
            lemma_min_len_bounds(*remaining, path);
            assert(f.lookup(Seq::empty()) is Some);
        },
        Fork::End { prefix, .. } => {
            assert(f.lookup(prefix@) is Some);
        },
        Fork::Nil => {},
    }
}


/// How two byte strings relate to each other, as far as their common prefix goes.
enum PrefixMatch {
    /// Both strings agree on the first `n` bytes and differ at byte `n`.
    Run(usize),
    /// The left string is a proper prefix of the right string.
    LeftInRight,
    /// The right string is a proper prefix of the left string.
    RightInLeft,
    /// Both strings are equal.
    Equal,
}

spec fn prefix_match_spec(left: Seq<u8>, right: Seq<u8>, m: PrefixMatch) -> bool {
    match m {
        PrefixMatch::Run(n) => {
            &&& n < left.len()
            &&& n < right.len()
            &&& left.take(n as int) == right.take(n as int)
            &&& left[n as int] != right[n as int]
        },
        PrefixMatch::LeftInRight => left.len() < right.len() && left.is_prefix_of(right),
        PrefixMatch::RightInLeft => right.len() < left.len() && right.is_prefix_of(left),
        PrefixMatch::Equal => left == right,
    }
}

fn match_prefix(left: &[u8], right: &[u8]) -> (m: PrefixMatch)
    ensures
        prefix_match_spec(left@, right@, m),
{
    let n = if left.len() < right.len() {
        left.len()
    } else {
        right.len()
    };
    let mut i: usize = 0;
    while i < n
        invariant
            n <= left@.len(),
            n <= right@.len(),
            n == left@.len() || n == right@.len(),
            i <= n,
            left@.take(i as int) == right@.take(i as int),
        decreases n - i,
    {
        if left[i] != right[i] {
            return PrefixMatch::Run(i);
        }
        assert(left@.take(i + 1) =~= left@.take(i as int).push(left@[i as int]));
        assert(right@.take(i + 1) =~= right@.take(i as int).push(right@[i as int]));
        i = i + 1;
    }
    if left.len() > right.len() {
        assert(right@ =~= right@.take(n as int));
        PrefixMatch::RightInLeft
    } else if left.len() < right.len() {
        assert(left@ =~= left@.take(n as int));
        PrefixMatch::LeftInRight
    } else {
        assert(left@ =~= left@.take(n as int));
        assert(right@ =~= right@.take(n as int));
        PrefixMatch::Equal
    }
}

/// The smaller of two lengths.
pub open spec fn min_nat(a: nat, b: nat) -> nat {
    if a <= b {
        a
    } else {
        b
    }
}

/// `new` is `old` after inserting `value` under `key`, where `key` is the
/// part of `total` that is relative to the fork, and the fork is well formed.
pub open spec fn inserted_from<'a, V>(
    old: Fork<'a, V>,
    new: Fork<'a, V>,
    key: Seq<u8>,
    total: Seq<u8>,
    value: V,
) -> bool {
    &&& new.wf_at(path_of(key, total))
    &&& !(new is Nil)
    &&& new.min_len() == if old is Nil {
        total.len()
    } else {
        min_nat(old.min_len(), total.len())
    }
    &&& forall|k: Seq<u8>| #[trigger]
        new.lookup(k) == if k == key {
            Option::Some(value)
        } else {
            old.lookup(k)
        }
}

/// Splitting a prefix test at position `n`.
proof fn lemma_prefix_split(p: Seq<u8>, k: Seq<u8>, n: int)
    requires
        0 <= n < p.len(),
    ensures
        p.is_prefix_of(k) <==> (p.take(n).is_prefix_of(k) && k.len() > n && k[n] == p[n]
            && p.skip(n + 1).is_prefix_of(k.skip(n + 1))),
        p.is_prefix_of(k) ==> k.skip(p.len() as int) == k.skip(n + 1).skip(
            p.len() - n - 1,
        ),
{
    if p.is_prefix_of(k) {
        assert(p.take(n) =~= k.take(n));
        assert(p.skip(n + 1) =~= k.skip(n + 1).take(p.len() - n - 1));
        assert(k.skip(p.len() as int) =~= k.skip(n + 1).skip(p.len() - n - 1));
    }
    if p.take(n).is_prefix_of(k) && k.len() > n && k[n] == p[n] && p.skip(n + 1).is_prefix_of(
        k.skip(n + 1),
    ) {
        assert forall|i: int| 0 <= i < p.len() implies p[i] == k[i] by {
            if i < n {
                assert(p.take(n)[i] == k[i]);
            } else if i > n {
                assert(p.skip(n + 1)[i - n - 1] == k.skip(n + 1)[i - n - 1]);
            }
        }
        assert(p =~= k.take(p.len() as int));
    }
}

impl<'a, V: Copy> Fork<'a, V> {
    /// Creates a new fork with no items in it.
    ///
    /// This doesn't allocate.
    pub fn new() -> (f: Self)
        ensures
            f is Nil,
            f.well_formed(),
            f@ == Map::<Seq<u8>, V>::empty(),
    {
        let f = Fork::Nil;
        assert(f@ =~= Map::<Seq<u8>, V>::empty());
        f
    }

    /// Returns true iff this fork is of type `Empty`.
    fn is_empty(&self) -> (b: bool)
        ensures
            b == (*self is Empty),
    {
        match self {
            Fork::Empty { .. } => true,
            _ => false,
        }
    }

    /// Returns the size of the smallest key inside this fork.
    ///
    /// This is done in constant time.
    pub fn min_size(&self) -> (r: usize)
        ensures
            r == self.min_len(),
    {
        match self {
            Fork::Run { min_size, .. } => *min_size,
            Fork::Chaotic { min_size, .. } => *min_size,
            Fork::Empty { total_prefix, .. } => total_prefix.len(),
            Fork::End { total_prefix, .. } => total_prefix.len(),
            Fork::Nil => 0,
        }
    }
}

/// Splitting an equality test at position `n`.
proof fn lemma_eq_split(p: Seq<u8>, k: Seq<u8>, n: int)
    requires
        0 <= n < p.len(),
    ensures
        k == p <==> (p.take(n).is_prefix_of(k) && k.len() > n && k[n] == p[n] && k.skip(n + 1)
            == p.skip(n + 1)),
{
    if p.take(n).is_prefix_of(k) && k.len() > n && k[n] == p[n] && k.skip(n + 1) == p.skip(
        n + 1,
    ) {
        assert(k.len() == p.len()) by {
            assert(k.skip(n + 1).len() == p.skip(n + 1).len());
        }
        assert forall|i: int| 0 <= i < p.len() implies p[i] == k[i] by {
            if i < n {
                assert(p.take(n)[i] == k[i]);
            } else if i > n {
                assert(p.skip(n + 1)[i - n - 1] == k.skip(n + 1)[i - n - 1]);
            }
        }
        assert(p =~= k);
    }
}

impl<'a, V: Copy> Fork<'a, V> {
    /// The fork for two items that agree on their first `n` bytes and then
    /// differ: a `Chaotic` with one child per item, behind a `Run` of the
    /// common bytes when there are any.
    fn split_ends(
        prefix: &'a [u8],
        total_prefix: &'a [u8],
        end_value: V,
        key: &'a [u8],
        total_key: &'a [u8],
        value: V,
        n: usize,
        min_size: usize,
    ) -> (res: Self)
        requires
            prefix_match_spec(prefix@, key@, PrefixMatch::Run(n)),
            is_suffix(key@, total_key@),
            total_prefix@ == path_of(key@, total_key@) + prefix@,
            min_size == min_nat(total_prefix@.len(), total_key@.len()),
        ensures
            inserted_from(
                Fork::End { prefix, total_prefix, value: end_value },
                res,
                key@,
                total_key@,
                value,
            ),
            res.canonical(),
            res is Run || res is Chaotic,
    {
        let ghost path = path_of(key@, total_key@);
        let ghost old = Fork::End { prefix, total_prefix, value: end_value };
        let mut items = BTreeMap::new();
        let left = Fork::End {
            prefix: vstd::slice::slice_subrange(prefix, n + 1, prefix.len()),
            total_prefix,
            value: end_value,
        };
        let right = Fork::End {
            prefix: vstd::slice::slice_subrange(key, n + 1, key.len()),
            total_prefix: total_key,
            value,
        };
        items.insert(prefix[n], left);
        items.insert(key[n], right);
        let ghost p = prefix@;
        let ghost kk = key@;
        let ghost at = path + p.take(n as int);
        assert(path + p =~= at.push(p[n as int]) + p.skip(n + 1));
        assert(total_key@ =~= at.push(kk[n as int]) + kk.skip(n + 1));
        assert(p.take(n as int) =~= kk.take(n as int));
        assert(items@ =~= map![p[n as int] => left, kk[n as int] => right]);
        let chaotic = Fork::Chaotic { min_size, items };
        assert(items@.contains_key(p[n as int]) && items@.contains_key(kk[n as int]));
        assert(left.canonical());
        assert(right.canonical());
        assert(p[n as int] != kk[n as int]);
        assert forall|c: u8| #[trigger] items@.contains_key(c) implies items@[c].canonical() by {
            if c == p[n as int] {
                assert(items@[c] == left);
            } else {
                assert(items@[c] == right);
            }
        }
        assert(has_two_keys(items@)) by {
            assert(items@.contains_key(p[n as int]) && items@.contains_key(kk[n as int]));
        }
        assert(chaotic.canonical());
        assert(left.wf_at(at.push(p[n as int])));
        assert(right.wf_at(at.push(kk[n as int])));
        assert(chaotic.wf_at(at)) by {
            if total_prefix@.len() <= total_key@.len() {
                assert(items@.contains_key(p[n as int]));
            } else {
                assert(items@.contains_key(kk[n as int]));
            }
        }
        assert forall|j: Seq<u8>| #[trigger]
            chaotic.lookup(j) == if j == kk.skip(n as int) {
                Option::Some(value)
            } else {
                if j == p.skip(n as int) {
                    Option::Some(end_value)
                } else {
                    Option::None
                }
            } by {
            let ps = p.skip(n as int);
            let ks = kk.skip(n as int);
            assert(ps.skip(1) =~= p.skip(n + 1));
            assert(ks.skip(1) =~= kk.skip(n + 1));
            if j.len() > 0 {
                assert(j.skip(1) =~= j.drop_first());
                lemma_eq_split(ps, j, 0);
                lemma_eq_split(ks, j, 0);
                assert(ps.take(0).is_prefix_of(j));
                assert(ks.take(0).is_prefix_of(j));
                if j[0] == p[n as int] {
                    assert(chaotic.lookup(j) == left.lookup(j.drop_first()));
                } else if j[0] == kk[n as int] {
                    assert(chaotic.lookup(j) == right.lookup(j.drop_first()));
                }
            }
        }
        if n == 0 {
            assert(p.skip(0) =~= p);
            assert(kk.skip(0) =~= kk);
            assert(at =~= path);
            assert(chaotic.canonical());
            chaotic
        } else {
            let res = Fork::Run {
                prefix: vstd::slice::slice_subrange(prefix, 0, n),
                min_size,
                remaining: Box::new(chaotic),
            };
            assert forall|k: Seq<u8>| #[trigger]
                res.lookup(k) == if k == kk {
                    Option::Some(value)
                } else {
                    old.lookup(k)
                } by {
                if p.take(n as int).is_prefix_of(k) {
                    assert(res.lookup(k) == chaotic.lookup(k.skip(n as int)));
                    assert(k.take(n as int) =~= p.take(n as int));
                    assert(k =~= k.take(n as int) + k.skip(n as int));
                    assert(p =~= p.take(n as int) + p.skip(n as int));
                    assert(kk =~= kk.take(n as int) + kk.skip(n as int));
                    assert(k == kk <==> k.skip(n as int) == kk.skip(n as int));
                    assert(k == p <==> k.skip(n as int) == p.skip(n as int));
                } else {
                    assert(p.take(n as int).is_prefix_of(p));
                    assert(p.take(n as int).is_prefix_of(kk));
                }
            }
            assert(res.canonical());
            res
        }
    }
}

impl<'a, V: Copy> Fork<'a, V> {
    /// Inserts an item into an `End` fork, giving the new fork.
    fn end_inserted(
        prefix: &'a [u8],
        total_prefix: &'a [u8],
        end_value: V,
        key: &'a [u8],
        total_key: &'a [u8],
        value: V,
    ) -> (res: Self)
        requires
            is_suffix(key@, total_key@),
            total_prefix@ == path_of(key@, total_key@) + prefix@,
        ensures
            inserted_from(
                Fork::End { prefix, total_prefix, value: end_value },
                res,
                key@,
                total_key@,
                value,
            ),
            res.canonical(),
    {
        let ghost path = path_of(key@, total_key@);
        let ghost old = Fork::End { prefix, total_prefix, value: end_value };
        let ghost p = prefix@;
        let ghost kk = key@;
        let min_size = if total_prefix.len() <= total_key.len() {
            total_prefix.len()
        } else {
            total_key.len()
        };
        match match_prefix(prefix, key) {
            // `prefix` and `key` differ after a common part (maybe empty)
            // => a run of the common part, followed by a chaotic
            PrefixMatch::Run(n) => {
                Self::split_ends(prefix, total_prefix, end_value, key, total_key, value, n, min_size)
            },
            PrefixMatch::LeftInRight => {
                let tail = Fork::End {
                    prefix: vstd::slice::slice_subrange(key, prefix.len(), key.len()),
                    total_prefix: total_key,
                    value,
                };
                let ghost ks = kk.skip(p.len() as int);
                assert(total_key@ =~= path + p + ks);
                assert(ks.len() > 0);
                assert(tail.lookup(Seq::<u8>::empty()) is None);
                assert(tail.canonical());
                let empty = Fork::Empty {
                    total_prefix,
                    value: end_value,
                    remaining: Box::new(tail),
                };
                assert(tail.wf_at(path + p));
                assert forall|j: Seq<u8>| #[trigger]
                    empty.lookup(j) == if j == ks {
                        Option::Some(value)
                    } else if j.len() == 0 {
                        Option::Some(end_value)
                    } else {
                        Option::None
                    } by {
                    if j.len() == 0 {
                        assert(ks.len() > 0);
                    } else {
                        assert(empty.lookup(j) == tail.lookup(j));
                    }
                }
                if prefix.is_empty() {
                    // `prefix` is empty
                    // => an empty followed by an end
                    assert(p =~= Seq::<u8>::empty());
                    assert(ks =~= kk);
                    assert(path + p =~= path);
                    assert forall|k: Seq<u8>| #[trigger]
                        empty.lookup(k) == if k == kk {
                            Option::Some(value)
                        } else {
                            old.lookup(k)
                        } by {
                        if k.len() == 0 {
                            assert(k =~= p);
                        }
                    }
                    assert(empty.canonical());
                    empty
                } else {
                    // `key` starts with `prefix`
                    // => a run of `prefix` followed by an empty and an end
                    assert(empty.wf_at(path + p));
                    assert(empty.canonical());
                    let res = Fork::Run { prefix, min_size, remaining: Box::new(empty) };
                    assert forall|k: Seq<u8>| #[trigger]
                        res.lookup(k) == if k == kk {
                            Option::Some(value)
                        } else {
                            old.lookup(k)
                        } by {
                        if p.is_prefix_of(k) {
                            assert(res.lookup(k) == empty.lookup(k.skip(p.len() as int)));
                            assert(k =~= p + k.skip(p.len() as int));
                            if k.skip(p.len() as int).len() == 0 {
                                assert(k =~= p);
                            }
                            assert(kk =~= p + ks);
                            assert(k == kk <==> k.skip(p.len() as int) == ks);
                            assert(k == p <==> k.skip(p.len() as int).len() == 0);
                        } else {
                            assert(p.is_prefix_of(kk));
                            assert(p.is_prefix_of(p));
                        }
                    }
                    assert(res.canonical());
                    res
                }
            },
            PrefixMatch::RightInLeft => {
                let tail = Fork::End {
                    prefix: vstd::slice::slice_subrange(prefix, key.len(), prefix.len()),
                    total_prefix,
                    value: end_value,
                };
                let ghost ps = p.skip(kk.len() as int);
                assert(total_prefix@ =~= path + kk + ps);
                assert(ps.len() > 0);
                assert(tail.lookup(Seq::<u8>::empty()) is None);
                assert(tail.canonical());
                let empty = Fork::Empty {
                    total_prefix: total_key,
                    value,
                    remaining: Box::new(tail),
                };
                assert(tail.wf_at(path + kk));
                assert forall|j: Seq<u8>| #[trigger]
                    empty.lookup(j) == if j == ps {
                        Option::Some(end_value)
                    } else if j.len() == 0 {
                        Option::Some(value)
                    } else {
                        Option::None
                    } by {
                    if j.len() == 0 {
                        assert(ps.len() > 0);
                    } else {
                        assert(empty.lookup(j) == tail.lookup(j));
                    }
                }
                if key.is_empty() {
                    // `key` is empty
                    // => an empty followed by this end
                    assert(kk =~= Seq::<u8>::empty());
                    assert(ps =~= p);
                    assert(path + kk =~= path);
                    assert forall|k: Seq<u8>| #[trigger]
                        empty.lookup(k) == if k == kk {
                            Option::Some(value)
                        } else {
                            old.lookup(k)
                        } by {
                        if k.len() == 0 {
                            assert(k =~= kk);
                        }
                    }
                    assert(empty.canonical());
                    empty
                } else {
                    // `prefix` starts with `key`
                    // => a run of `key` followed by an empty and an end
                    assert(empty.wf_at(path + kk));
                    let res = Fork::Run { prefix: key, min_size, remaining: Box::new(empty) };
                    assert forall|k: Seq<u8>| #[trigger]
                        res.lookup(k) == if k == kk {
                            Option::Some(value)
                        } else {
                            old.lookup(k)
                        } by {
                        if kk.is_prefix_of(k) {
                            assert(res.lookup(k) == empty.lookup(k.skip(kk.len() as int)));
                            assert(k =~= kk + k.skip(kk.len() as int));
                            if k.skip(kk.len() as int).len() == 0 {
                                assert(k =~= kk);
                            }
                            assert(p =~= kk + ps);
                            assert(k == p <==> k.skip(kk.len() as int) == ps);
                            assert(k == kk <==> k.skip(kk.len() as int).len() == 0);
                        } else {
                            assert(kk.is_prefix_of(p));
                            assert(kk.is_prefix_of(kk));
                        }
                    }
                    assert(res.canonical());
                    res
                }
            },
            PrefixMatch::Equal => {
                // => replace the value
                let res = Fork::End { prefix, total_prefix, value };
                assert forall|k: Seq<u8>| #[trigger]
                    res.lookup(k) == if k == kk {
                        Option::Some(value)
                    } else {
                        old.lookup(k)
                    } by {}
                assert(res.canonical());
                res
            },
        }
    }
}

impl<'a, V: Copy> Fork<'a, V> {
    /// Inserts an item into a `Run` fork whose prefix and the key agree on
    /// their first `n` bytes and then differ: a `Chaotic` at byte `n`,
    /// behind a shorter `Run` when `n > 0`.
    fn split_run(
        prefix: &'a [u8],
        min_size: usize,
        remaining: Box<Fork<'a, V>>,
        key: &'a [u8],
        total_key: &'a [u8],
        value: V,
        n: usize,
        new_min: usize,
    ) -> (res: Self)
        requires
            prefix_match_spec(prefix@, key@, PrefixMatch::Run(n)),
            is_suffix(key@, total_key@),
            (Fork::Run { prefix, min_size, remaining }).wf_at(path_of(key@, total_key@)),
            new_min == min_nat(min_size as nat, total_key@.len()),
            (Fork::Run { prefix, min_size, remaining }).canonical(),
        ensures
            inserted_from((Fork::Run { prefix, min_size, remaining }), res, key@, total_key@, value),
            res.canonical(),
            res is Run || res is Chaotic,
    {
        let ghost path = path_of(key@, total_key@);
        let ghost old = Fork::Run { prefix, min_size, remaining };
        let ghost rem = *remaining;
        let ghost p = prefix@;
        let ghost kk = key@;
        let ghost at = path + p.take(n as int);
        let left = if prefix.len() > n + 1 {
            Fork::Run {
                min_size,
                prefix: vstd::slice::slice_subrange(prefix, n + 1, prefix.len()),
                remaining,
            }
        } else {
            *remaining
        };
        let right = Fork::End {
            prefix: vstd::slice::slice_subrange(key, n + 1, key.len()),
            total_prefix: total_key,
            value,
        };
        let mut items = BTreeMap::new();
        items.insert(prefix[n], left);
        items.insert(key[n], right);
        assert(items@ =~= map![p[n as int] => left, kk[n as int] => right]);
        assert(path + p =~= at.push(p[n as int]) + p.skip(n + 1));
        assert(total_key@ =~= at.push(kk[n as int]) + kk.skip(n + 1));
        assert(p.take(n as int) =~= kk.take(n as int));
        if prefix.len() == n + 1 {
            assert(path + p =~= at.push(p[n as int]));
        }
        assert(left.wf_at(at.push(p[n as int])));
        assert(right.wf_at(at.push(kk[n as int])));
        assert(left.min_len() == min_size);
        let chaotic = Fork::Chaotic { min_size: new_min, items };
        assert(items@.contains_key(p[n as int]) && items@.contains_key(kk[n as int]));
        assert(left.canonical());
        assert(right.canonical());
        assert(p[n as int] != kk[n as int]);
        assert forall|c: u8| #[trigger] items@.contains_key(c) implies items@[c].canonical() by {
            if c == p[n as int] {
                assert(items@[c] == left);
            } else {
                assert(items@[c] == right);
            }
        }
        assert(has_two_keys(items@)) by {
            assert(items@.contains_key(p[n as int]) && items@.contains_key(kk[n as int]));
        }
        assert(chaotic.canonical());
        assert(chaotic.wf_at(at)) by {
            if min_size <= total_key@.len() {
                assert(items@.contains_key(p[n as int]));
            } else {
                assert(items@.contains_key(kk[n as int]));
            }
        }
        assert forall|j: Seq<u8>| #[trigger]
            chaotic.lookup(j) == if j == kk.skip(n as int) {
                Option::Some(value)
            } else if p.skip(n as int).is_prefix_of(j) {
                rem.lookup(j.skip(p.len() - n))
            } else {
                Option::None
            } by {
            let ps = p.skip(n as int);
            let ks = kk.skip(n as int);
            assert(ps.skip(1) =~= p.skip(n + 1));
            assert(ks.skip(1) =~= kk.skip(n + 1));
            if j.len() > 0 {
                assert(j.skip(1) =~= j.drop_first());
                lemma_prefix_split(ps, j, 0);
                lemma_eq_split(ks, j, 0);
                assert(ps.take(0).is_prefix_of(j));
                assert(ks.take(0).is_prefix_of(j));
                if j[0] == p[n as int] {
                    assert(chaotic.lookup(j) == left.lookup(j.drop_first()));
                    if p.len() == n as nat + 1 {
                        assert(ps.skip(1) =~= Seq::<u8>::empty());
                        assert(j.skip(1).skip(0) =~= j.skip(1));
                    }
                } else if j[0] == kk[n as int] {
                    assert(chaotic.lookup(j) == right.lookup(j.drop_first()));
                }
            }
        }
        if n == 0 {
            assert(p.skip(0) =~= p);
            assert(kk.skip(0) =~= kk);
            assert(at =~= path);
            assert(chaotic.canonical());
            chaotic
        } else {
            let res = Fork::Run {
                prefix: vstd::slice::slice_subrange(prefix, 0, n),
                min_size: new_min,
                remaining: Box::new(chaotic),
            };
            assert forall|k: Seq<u8>| #[trigger]
                res.lookup(k) == if k == kk {
                    Option::Some(value)
                } else {
                    old.lookup(k)
                } by {
                if p.take(n as int).is_prefix_of(k) {
                    assert(res.lookup(k) == chaotic.lookup(k.skip(n as int)));
                    assert(k.take(n as int) =~= p.take(n as int));
                    assert(k =~= k.take(n as int) + k.skip(n as int));
                    assert(p =~= p.take(n as int) + p.skip(n as int));
                    assert(kk =~= kk.take(n as int) + kk.skip(n as int));
                    assert(k == kk <==> k.skip(n as int) == kk.skip(n as int));
                    assert(p.is_prefix_of(k) <==> p.skip(n as int).is_prefix_of(k.skip(n as int)))
                        by {
                        if p.skip(n as int).is_prefix_of(k.skip(n as int)) {
                            assert(p =~= k.take(p.len() as int));
                        }
                    }
                    if p.is_prefix_of(k) {
                        assert(k.skip(p.len() as int) =~= k.skip(n as int).skip(p.len() - n));
                    }
                } else {
                    assert(p.take(n as int).is_prefix_of(kk));
                    assert(!p.is_prefix_of(k));
                }
            }
            assert(res.canonical());
            res
        }
    }
}

impl<'a, V: Copy> Fork<'a, V> {
    /// The fork after inserting `value` under `key`, where `key` is the
    /// suffix of `total_key` that is relative to this fork.
    fn inserted(self, key: &'a [u8], total_key: &'a [u8], value: V) -> (res: Self)
        requires
            is_suffix(key@, total_key@),
            self.wf_at(path_of(key@, total_key@)),
            self.canonical(),
        ensures
            inserted_from(self, res, key@, total_key@, value),
            res.canonical(),
            self is Empty ==> res is Empty,
            self is Chaotic && key@.len() > 0 ==> res is Chaotic,
        decreases self,
    {
        let ghost path = path_of(key@, total_key@);
        let ghost kk = key@;
        let ghost old = self;
        match self {
            Fork::Run { prefix, min_size, remaining } => {
                let ghost p = prefix@;
                let ghost rem = *remaining;
                let new_min = if min_size <= total_key.len() {
                    min_size
                } else {
                    total_key.len()
                };
                match match_prefix(prefix, key) {
                    // `prefix` and `key` differ at some byte
                    // => continue to use the matching prefix (if any),
                    // use a Chaotic when they're different
                    PrefixMatch::Run(n) => {
                        Self::split_run(prefix, min_size, remaining, key, total_key, value, n, new_min)
                    },
                    // `key` starts with `prefix` but has characters after it.
                    // => strip prefix and insert in the remaining fork
                    PrefixMatch::LeftInRight => {
                        let rest = vstd::slice::slice_subrange(key, prefix.len(), key.len());
                        assert(path_of(rest@, total_key@) =~= path + p);
                        assert(kk =~= p + rest@);
                        assert(total_key@ =~= path_of(rest@, total_key@) + rest@);
                        let inner = (*remaining).inserted(rest, total_key, value);
                        let res = Fork::Run { prefix, min_size: new_min, remaining: Box::new(inner) };
                        assert forall|k: Seq<u8>| #[trigger]
                            res.lookup(k) == if k == kk {
                                Option::Some(value)
                            } else {
                                old.lookup(k)
                            } by {
                            if p.is_prefix_of(k) {
                                assert(res.lookup(k) == inner.lookup(k.skip(p.len() as int)));
                                assert(k =~= p + k.skip(p.len() as int));
                                assert(k == kk <==> k.skip(p.len() as int) == rest@);
                            } else {
                                assert(p.is_prefix_of(kk));
                            }
                        }
                        assert(res.canonical());
                        res
                    },
                    PrefixMatch::RightInLeft => {
                        if key.is_empty() {
                            // `key` is empty.
                            // => insert an empty item - wrapping the run
                            let res = Fork::Empty {
                                total_prefix: total_key,
                                value,
                                remaining: Box::new(Fork::Run { prefix, min_size, remaining }),
                            };
                            assert(path =~= total_key@);
                            proof {
                                lemma_min_len_bounds(rem, path + p);
                            }
                            assert forall|k: Seq<u8>| #[trigger]
                                res.lookup(k) == if k == kk {
                                    Option::Some(value)
                                } else {
                                    old.lookup(k)
                                } by {
                                if k.len() == 0 {
                                    assert(k =~= kk);
                                }
                            }
                            assert(res.canonical());
                            res
                        } else {
                            // the run starts with `key`, but the run is longer
                            // => split into two runs and one empty
                            let tail = Fork::Run {
                                min_size,
                                prefix: vstd::slice::slice_subrange(prefix, key.len(), prefix.len()),
                                remaining,
                            };
                            let ghost ps = p.skip(kk.len() as int);
                            assert(path + p =~= path + kk + ps);
                            assert(ps.len() > 0);
                            assert(!ps.is_prefix_of(Seq::<u8>::empty()));
                            assert(tail.lookup(Seq::<u8>::empty()) is None);
                            assert(total_key@ =~= path + kk);
                            assert(tail.wf_at(path + kk));
                            proof {
                                lemma_min_len_bounds(rem, path + p);
                            }
                            assert(tail.canonical());
                            let empty = Fork::Empty {
                                total_prefix: total_key,
                                value,
                                remaining: Box::new(tail),
                            };
                            assert(empty.canonical());
                            assert(empty.wf_at(path + kk));
                            let res = Fork::Run {
                                prefix: key,
                                min_size: new_min,
                                remaining: Box::new(empty),
                            };
                            assert forall|k: Seq<u8>| #[trigger]
                                res.lookup(k) == if k == kk {
                                    Option::Some(value)
                                } else {
                                    old.lookup(k)
                                } by {
                                if kk.is_prefix_of(k) {
                                    let j = k.skip(kk.len() as int);
                                    assert(res.lookup(k) == empty.lookup(j));
                                    assert(k =~= kk + j);
                                    if j.len() == 0 {
                                        assert(k =~= kk);
                                    } else {
                                        assert(empty.lookup(j) == tail.lookup(j));
                                    }
                                    assert(p =~= kk + ps);
                                    assert(p.is_prefix_of(k) <==> ps.is_prefix_of(j)) by {
                                        if ps.is_prefix_of(j) {
                                            assert(p =~= k.take(p.len() as int));
                                        }
                                    }
                                    if p.is_prefix_of(k) {
                                        assert(k.skip(p.len() as int) =~= j.skip(ps.len() as int));
                                    }
                                } else {
                                    assert(kk.is_prefix_of(p));
                                    assert(kk.is_prefix_of(kk));
                                    assert(!p.is_prefix_of(k));
                                }
                            }
                            assert(res.canonical());
                            res
                        }
                    },
                    PrefixMatch::Equal => {
                        if remaining.is_empty() {
                            // `key` == `prefix` and the remaining fork is an Empty
                            // => replace the value in the remaining fork
                            let rest = vstd::slice::slice_subrange(key, key.len(), key.len());
                            assert(path_of(rest@, total_key@) =~= path + p);
                            assert(rest@ =~= Seq::<u8>::empty());
                            assert(total_key@ =~= path_of(rest@, total_key@) + rest@);
                            assert(rem.wf_at(path + p));
                            assert(total_key@ =~= path + p);
                            assert(rem.min_len() == total_key@.len());
                            let inner = (*remaining).inserted(rest, total_key, value);
                            proof {
                                lemma_min_len_bounds(rem, path + p);
                            }
                            let res = Fork::Run { prefix, min_size, remaining: Box::new(inner) };
                            assert forall|k: Seq<u8>| #[trigger]
                                res.lookup(k) == if k == kk {
                                    Option::Some(value)
                                } else {
                                    old.lookup(k)
                                } by {
                                if p.is_prefix_of(k) {
                                    assert(res.lookup(k) == inner.lookup(k.skip(p.len() as int)));
                                    assert(k =~= p + k.skip(p.len() as int));
                                    assert(k == kk <==> k.skip(p.len() as int) == rest@);
                                } else {
                                    assert(p.is_prefix_of(kk));
                                }
                            }
                            assert(res.canonical());
                            res
                        } else {
                            // `key` == `prefix` and the remaining fork isn't an Empty
                            // => insert an empty
                            proof {
                                lemma_min_len_bounds(rem, path + p);
                            }
                            assert(total_key@ =~= path + p);
                            let empty = Fork::Empty { total_prefix: total_key, value, remaining };
                            assert(empty.wf_at(path + p));
                            assert(rem is Chaotic);
                            assert(rem.lookup(Seq::<u8>::empty()) is None);
                            assert(empty.canonical());
                            let res = Fork::Run {
                                prefix,
                                min_size: new_min,
                                remaining: Box::new(empty),
                            };
                            assert forall|k: Seq<u8>| #[trigger]
                                res.lookup(k) == if k == kk {
                                    Option::Some(value)
                                } else {
                                    old.lookup(k)
                                } by {
                                if p.is_prefix_of(k) {
                                    let j = k.skip(p.len() as int);
                                    assert(k =~= p + j);
                                    assert(res.lookup(k) == empty.lookup(j));
                                    if j.len() == 0 {
                                        assert(k =~= kk);
                                    } else {
                                        assert(empty.lookup(j) == rem.lookup(j));
                                        assert(k.len() != kk.len());
                                    }
                                } else {
                                    assert(p.is_prefix_of(kk));
                                }
                            }
                            assert(res.canonical());
                            res
                        }
                    },
                }
            },
            Fork::Chaotic { min_size, items } => {
                if key.is_empty() {
                    // `key` is empty => insert an empty here
                    let res = Fork::Empty {
                        total_prefix: total_key,
                        value,
                        remaining: Box::new(Fork::Chaotic { min_size, items }),
                    };
                    assert(path =~= total_key@);
                    proof {
                        lemma_min_len_bounds(old, path);
                    }
                    assert forall|k: Seq<u8>| #[trigger]
                        res.lookup(k) == if k == kk {
                            Option::Some(value)
                        } else {
                            old.lookup(k)
                        } by {
                        if k.len() == 0 {
                            assert(k =~= kk);
                        }
                    }
                    assert(res.canonical());
                    res
                } else {
                    // `key` isn't empty
                    // => find/insert the slot where `key[0]` fits
                    let ghost old_items = items@;
                    let new_min = if min_size <= total_key.len() {
                        min_size
                    } else {
                        total_key.len()
                    };
                    let mut items = items;
                    let b = key[0];
                    let rest = vstd::slice::slice_subrange(key, 1, key.len());
                    assert(path_of(rest@, total_key@) =~= path.push(b));
                    assert(kk =~= seq![b] + rest@);
                    assert(total_key@ =~= path_of(rest@, total_key@) + rest@);
                    let ghost b0 = choose|b: u8| #[trigger]
                        old_items.contains_key(b) && old_items[b].min_len() == min_size;
                    let child = match items.remove(&b) {
                        // the slot already exists
                        //  => insert there
                        Option::Some(child) => {
                            proof {
                                assert(decreases_to!(items => items@));
                            }
                            child.inserted(rest, total_key, value)
                        },
                        // the slot doesn't exist yet
                        // => create a new slot and an end
                        Option::None => Fork::End { prefix: rest, total_prefix: total_key, value },
                    };
                    items.insert(b, child);
                    assert(items@ =~= old_items.insert(b, child));
                    let res = Fork::Chaotic { min_size: new_min, items };
                    proof {
                        let (a0, a1) = choose|a0: u8, a1: u8|
                            #![trigger old_items.contains_key(a0), old_items.contains_key(a1)]
                            a0 != a1 && old_items.contains_key(a0) && old_items.contains_key(a1);
                        assert(items@.contains_key(a0) && items@.contains_key(a1));
                        assert(has_two_keys(items@));
                        assert forall|c: u8| #[trigger] items@.contains_key(c) implies items@[c].canonical() by {
                            if c != b {
                                assert(items@[c] == old_items[c]);
                            }
                        }
                    }
                    assert(res.wf_at(path)) by {
                        assert(child.wf_at(path.push(b)));
                        assert forall|c: u8| #[trigger] items@.contains_key(c) implies {
                            &&& !(items@[c] is Nil)
                            &&& items@[c].min_len() >= new_min
                            &&& items@[c].wf_at(path.push(c))
                        } by {
                            if c != b {
                                assert(old_items.contains_key(c));
                                assert(items@[c] == old_items[c]);
                            }
                        }
                        if total_key@.len() < min_size {
                            assert(items@.contains_key(b) && items@[b].min_len() == new_min);
                        } else {
                            assert(items@.contains_key(b0) && items@[b0].min_len() == new_min);
                        }
                    }
                    assert forall|k: Seq<u8>| #[trigger]
                        res.lookup(k) == if k == kk {
                            Option::Some(value)
                        } else {
                            old.lookup(k)
                        } by {
                        if k.len() > 0 && k[0] == b {
                            assert(k =~= seq![b] + k.drop_first());
                            assert(k == kk <==> k.drop_first() == rest@);
                            assert(res.lookup(k) == child.lookup(k.drop_first()));
                            if old_items.contains_key(b) {
                                assert(old.lookup(k) == old_items[b].lookup(k.drop_first()));
                            }
                        } else if k.len() > 0 {
                            assert(k != kk);
                            if old_items.contains_key(k[0]) {
                                assert(res.lookup(k) == old_items[k[0]].lookup(k.drop_first()));
                            }
                        }
                    }
                    assert(res.canonical());
                    res
                }
            },
            Fork::End { prefix, total_prefix, value: end_value } => {
                Self::end_inserted(prefix, total_prefix, end_value, key, total_key, value)
            },
            Fork::Empty { total_prefix, value: empty_value, remaining } => {
                let ghost rem = *remaining;
                if key.is_empty() {
                    // both are equal,
                    // => replace the value
                    let res = Fork::Empty { total_prefix, value, remaining };
                    assert forall|k: Seq<u8>| #[trigger]
                        res.lookup(k) == if k == kk {
                            Option::Some(value)
                        } else {
                            old.lookup(k)
                        } by {
                        if k.len() == 0 {
                            assert(k =~= kk);
                        }
                    }
                    assert(res.canonical());
                    res
                } else {
                    // continue inserting in the remaining fork
                    assert(total_prefix@ == path);
                    let inner = (*remaining).inserted(key, total_key, value);
                    let res = Fork::Empty {
                        total_prefix,
                        value: empty_value,
                        remaining: Box::new(inner),
                    };
                    assert forall|k: Seq<u8>| #[trigger]
                        res.lookup(k) == if k == kk {
                            Option::Some(value)
                        } else {
                            old.lookup(k)
                        } by {
                        if k.len() == 0 {
                            assert(k.len() != kk.len());
                        } else {
                            assert(res.lookup(k) == inner.lookup(k));
                        }
                    }
                    assert(res.canonical());
                    res
                }
            },
            Fork::Nil => {
                // this is the first item
                let res = Fork::End { prefix: key, total_prefix: total_key, value };
                assert(res.canonical());
                res
            },
        }
    }

    /// Inserts `value` under `total_key` into this fork, where `key` is the
    /// suffix of `total_key` relevant for this fork.
    fn insert_inner(&mut self, key: &'a [u8], total_key: &'a [u8], value: V)
        requires
            is_suffix(key@, total_key@),
            old(self).wf_at(path_of(key@, total_key@)),
            old(self).canonical(),
        ensures
            inserted_from(*old(self), *final(self), key@, total_key@, value),
            final(self).canonical(),
    {
        let mut current = Fork::Nil;
        std::mem::swap(self, &mut current);
        *self = current.inserted(key, total_key, value);
    }

    /// Inserts a new item with `key` and `value` into this fork.
    pub fn insert(&mut self, key: &'a [u8], value: V)
        requires
            old(self).well_formed(),
        ensures
            final(self).well_formed(),
            final(self)@ == old(self)@.insert(key@, value),
            final(self).min_len() == if *old(self) is Nil {
                key@.len()
            } else {
                min_nat(old(self).min_len(), key@.len())
            },
            forall|g: Fork<'a, V>|
                g.well_formed() && g@ == final(self)@ ==> #[trigger] g.same_shape(*final(self)),
            old(self)@.contains_key(key@) ==> final(self).same_structure(*old(self)),
            old(self)@.contains_key(key@) && old(self)@[key@] == value ==> final(self).same_shape(
                *old(self),
            ),
    {
        assert(path_of(key@, key@) =~= Seq::<u8>::empty());
        assert(key@ =~= path_of(key@, key@) + key@);
        self.insert_inner(key, key, value);
        assert(final(self)@ =~= old(self)@.insert(key@, value));
        assert forall|g: Fork<'a, V>|
            g.well_formed() && g@ == final(self)@ implies #[trigger] g.same_shape(*final(self)) by {
            lemma_shape_from_view(g, *final(self));
        }
        proof {
            if old(self)@.contains_key(key@) {
                assert forall|k: Seq<u8>|
                    #![trigger final(self).lookup(k)]
                    #![trigger old(self).lookup(k)]
                    (final(self).lookup(k) is Some) == (old(self).lookup(k) is Some) by {
                    if k == key@ {
                        assert(old(self)@.contains_key(k));
                    }
                }
                lemma_structure_from_keys(*final(self), *old(self), Seq::empty());
            }
            if old(self)@.contains_key(key@) && old(self)@[key@] == value {
                assert(final(self)@ =~= old(self)@);
                lemma_shape_from_view(*final(self), *old(self));
            }
        }
    }
}

/// `min_size()` of a well-formed fork is the length of its shortest key,
/// and a fork is `Nil` exactly when it holds no item.
pub proof fn lemma_min_size_is_shortest_key<'a, V>(f: Fork<'a, V>)
    requires
        f.well_formed(),
    ensures
        forall|k: Seq<u8>| #[trigger] f@.contains_key(k) ==> f.min_len() <= k.len(),
        !(f is Nil) ==> exists|k: Seq<u8>| #[trigger] f@.contains_key(k) && k.len() == f.min_len(),
        f is Nil <==> f@ =~= Map::<Seq<u8>, V>::empty(),
{
    lemma_min_len_bounds(f, Seq::empty());
    if !(f is Nil) {
        let k = choose|k: Seq<u8>|
            #[trigger] f.lookup(k) is Some && Seq::<u8>::empty().len() + k.len() == f.min_len();
        assert(f@.contains_key(k));
    }
}

/// The length of the shortest key of a fork fits into a `usize`.
pub proof fn lemma_min_len_fits<'a, V>(f: Fork<'a, V>)
    ensures
        f.min_len() <= usize::MAX,
{
    match f {
        Fork::Empty { total_prefix, .. } => {
            assert(total_prefix@.len() == total_prefix.len());
        },
        Fork::End { total_prefix, .. } => {
            assert(total_prefix@.len() == total_prefix.len());
        },
        _ => {},
    }
}
impl<'a, V> Fork<'a, V> {
    /// `self` and `other` have the same structure: the same kind of node
    /// everywhere, with the same prefixes, total prefixes, minimum sizes and
    /// `Chaotic` bytes; only the values stored may differ.
    pub open spec fn same_structure(self, other: Self) -> bool
        decreases self,
    {
        match self {
            Fork::Run { prefix, min_size, remaining } => match other {
                Fork::Run { prefix: p2, min_size: m2, remaining: r2 } => {
                    &&& prefix@ == p2@
                    &&& min_size == m2
                    &&& remaining.same_structure(*r2)
                },
                _ => false,
            },
            Fork::Chaotic { min_size, items } => match other {
                Fork::Chaotic { min_size: m2, items: i2 } => {
                    &&& min_size == m2
                    &&& items@.dom() == i2@.dom()
                    &&& forall|b: u8| #[trigger]
                        items@.contains_key(b) ==> items@[b].same_structure(i2@[b])
                },
                _ => false,
            },
            Fork::Empty { total_prefix, remaining, .. } => match other {
                Fork::Empty { total_prefix: t2, remaining: r2, .. } => {
                    &&& total_prefix@ == t2@
                    &&& remaining.same_structure(*r2)
                },
                _ => false,
            },
            Fork::End { prefix, total_prefix, .. } => match other {
                Fork::End { prefix: p2, total_prefix: t2, .. } => {
                    &&& prefix@ == p2@
                    &&& total_prefix@ == t2@
                },
                _ => false,
            },
            Fork::Nil => other is Nil,
        }
    }

    /// `self` and `other` have the same shape: the same structure and the
    /// same items, hence the same value in every node.
    pub open spec fn same_shape(self, other: Self) -> bool {
        &&& self.same_structure(other)
        &&& forall|k: Seq<u8>| #[trigger] self.lookup(k) == other.lookup(k)
    }

    /// `self` and `other` hold items under the same keys.
    pub open spec fn same_keys(self, other: Self) -> bool {
        forall|k: Seq<u8>|
            #![trigger self.lookup(k)]
            #![trigger other.lookup(k)]
            (self.lookup(k) is Some) == (other.lookup(k) is Some)
    }
}

/// `f` is a node where an item ends: an `Empty`, or an `End` with nothing left.
spec fn ends_here<'a, V>(f: Fork<'a, V>) -> bool {
    match f {
        Fork::Empty { .. } => true,
        Fork::End { prefix, .. } => prefix@.len() == 0,
        _ => false,
    }
}

/// What the kind of a canonical fork says about the keys it holds.
proof fn lemma_kind<'a, V>(f: Fork<'a, V>, path: Seq<u8>)
    requires
        f.wf_at(path),
        f.canonical(),
    ensures
        f matches Fork::End { prefix, .. } ==> forall|k: Seq<u8>| #[trigger]
            f.lookup(k) is Some ==> k == prefix@,
        !(f is End) && !(f is Nil) ==> exists|k1: Seq<u8>, k2: Seq<u8>|
            #![trigger f.lookup(k1), f.lookup(k2)]
            f.lookup(k1) is Some && f.lookup(k2) is Some && k1 != k2,
        f.lookup(Seq::empty()) is Some <==> ends_here(f),
        f matches Fork::Run { prefix, .. } ==> forall|k: Seq<u8>| #[trigger]
            f.lookup(k) is Some ==> k.len() > 0 && k[0] == prefix@[0],
        f is Chaotic ==> exists|k1: Seq<u8>, k2: Seq<u8>|
            #![trigger f.lookup(k1), f.lookup(k2)]
            f.lookup(k1) is Some && f.lookup(k2) is Some && k1.len() > 0 && k2.len() > 0
                && k1[0] != k2[0],
    decreases f,
{
    match f {
        Fork::Run { prefix, remaining, .. } => {
            let p = prefix@;
            assert(p.len() > 0);
            assert(!p.is_prefix_of(Seq::<u8>::empty()));
            assert(f.lookup(Seq::<u8>::empty()) is None);
            lemma_kind(*remaining, path + p);
            let (k1, k2) = choose|k1: Seq<u8>, k2: Seq<u8>|
                #![trigger remaining.lookup(k1), remaining.lookup(k2)]
                remaining.lookup(k1) is Some && remaining.lookup(k2) is Some && k1 != k2;
            assert((p + k1).skip(p.len() as int) =~= k1);
            assert((p + k2).skip(p.len() as int) =~= k2);
            assert(p.is_prefix_of(p + k1));
            assert(p.is_prefix_of(p + k2));
            assert(f.lookup(p + k1) is Some && f.lookup(p + k2) is Some);
            assert(p + k1 != p + k2) by {
                if p + k1 == p + k2 {
                    assert(k1 =~= (p + k1).skip(p.len() as int));
                }
            }
            assert forall|k: Seq<u8>| #[trigger] f.lookup(k) is Some implies k.len() > 0 && k[0]
                == p[0] by {
                assert(p.is_prefix_of(k));
            }
        },
        Fork::Chaotic { items, .. } => {
            let (a, b) = choose|a: u8, b: u8| #![trigger items@.contains_key(a), items@.contains_key(b)]
                a != b && items@.contains_key(a) && items@.contains_key(b);
            lemma_min_len_bounds(items@[a], path.push(a));
            lemma_min_len_bounds(items@[b], path.push(b));
            let ja = choose|k: Seq<u8>| #[trigger] items@[a].lookup(k) is Some && path.push(a).len()
                + k.len() == items@[a].min_len();
            let jb = choose|k: Seq<u8>| #[trigger] items@[b].lookup(k) is Some && path.push(b).len()
                + k.len() == items@[b].min_len();
            let k1 = seq![a] + ja;
            let k2 = seq![b] + jb;
            assert(k1.drop_first() =~= ja);
            assert(k2.drop_first() =~= jb);
            assert(f.lookup(k1) is Some && f.lookup(k2) is Some);
            assert(k1[0] != k2[0]);
            assert(f.lookup(Seq::<u8>::empty()) is None);
        },
        Fork::Empty { remaining, .. } => {
            lemma_min_len_bounds(*remaining, path);
            let k = choose|k: Seq<u8>| #[trigger] remaining.lookup(k) is Some && path.len()
                + k.len() == remaining.min_len();
            assert(k.len() > 0) by {
                if k.len() == 0 {
                    assert(k =~= Seq::<u8>::empty());
                }
            }
            assert(f.lookup(k) is Some);
            assert(f.lookup(Seq::empty()) is Some);
            assert(k != Seq::<u8>::empty());
        },
        Fork::End { prefix, .. } => {
            if prefix@.len() == 0 {
                assert(prefix@ =~= Seq::<u8>::empty());
            }
        },
        Fork::Nil => {},
    }
}

/// Two well-formed forks at `path` that hold items under the same keys have
/// the same shortest length.
proof fn lemma_same_min_len<'a, V>(f: Fork<'a, V>, g: Fork<'a, V>, path: Seq<u8>)
    requires
        f.wf_at(path),
        g.wf_at(path),
        !(f is Nil),
        !(g is Nil),
        f.same_keys(g),
    ensures
        f.min_len() == g.min_len(),
{
    lemma_min_len_bounds(f, path);
    lemma_min_len_bounds(g, path);
    let kf = choose|k: Seq<u8>| #[trigger] f.lookup(k) is Some && path.len() + k.len() == f.min_len();
    let kg = choose|k: Seq<u8>| #[trigger] g.lookup(k) is Some && path.len() + k.len() == g.min_len();
    assert(g.lookup(kf) is Some);
    assert(f.lookup(kg) is Some);
}

/// The structure of a well-formed fork in canonical form depends only on the
/// keys it holds: two such forks at `path` that hold items under the same
/// keys have the same structure.
pub proof fn lemma_structure_from_keys<'a, V>(f: Fork<'a, V>, g: Fork<'a, V>, path: Seq<u8>)
    requires
        f.wf_at(path),
        g.wf_at(path),
        f.canonical(),
        g.canonical(),
        f.same_keys(g),
    ensures
        f.same_structure(g),
    decreases f,
{
    lemma_kind(f, path);
    lemma_kind(g, path);
    if !(f is Nil) && !(g is Nil) {
        lemma_same_min_len(f, g, path);
    }
    if f is Nil {
        if !(g is Nil) {
            lemma_min_len_bounds(g, path);
            let k = choose|k: Seq<u8>| #[trigger] g.lookup(k) is Some && path.len() + k.len()
                == g.min_len();
            assert(f.lookup(k) is None);
        }
    } else if g is Nil {
        lemma_min_len_bounds(f, path);
        let k = choose|k: Seq<u8>| #[trigger] f.lookup(k) is Some && path.len() + k.len()
            == f.min_len();
        assert(g.lookup(k) is None);
    } else if f is End || g is End {
        lemma_ends_same_shape(f, g, path);
    } else {
        assert((f.lookup(Seq::empty()) is Some) == (g.lookup(Seq::empty()) is Some));
        match f {
            Fork::Empty { total_prefix, value, remaining } => {
                if let Fork::Empty { total_prefix: t2, value: v2, remaining: r2 } = g {
                    assert forall|k: Seq<u8>|
                        #![trigger remaining.lookup(k)]
                        #![trigger r2.lookup(k)]
                        (remaining.lookup(k) is Some) == (r2.lookup(k) is Some) by {
                        if k.len() > 0 {
                            assert(f.lookup(k) == remaining.lookup(k));
                            assert(g.lookup(k) == r2.lookup(k));
                        } else {
                            assert(k =~= Seq::<u8>::empty());
                        }
                    }
                    lemma_structure_from_keys(*remaining, *r2, path);
                }
            },
            Fork::Run { prefix, min_size, remaining } => {
                if let Fork::Run { prefix: p2, min_size: m2, remaining: r2 } = g {
                    lemma_run_prefix_len(f, g, path);
                    lemma_run_prefix_len(g, f, path);
                    let p = prefix@;
                    let (k0, k1) = choose|k1: Seq<u8>, k2: Seq<u8>|
                        #![trigger f.lookup(k1), f.lookup(k2)]
                        f.lookup(k1) is Some && f.lookup(k2) is Some && k1 != k2;
                    assert(p.is_prefix_of(k0));
                    assert(g.lookup(k0) is Some);
                    assert(p2@.is_prefix_of(k0));
                    assert(p =~= p2@) by {
                        assert(p =~= k0.take(p.len() as int));
                        assert(p2@ =~= k0.take(p2@.len() as int));
                    }
                    assert forall|j: Seq<u8>|
                        #![trigger remaining.lookup(j)]
                        #![trigger r2.lookup(j)]
                        (remaining.lookup(j) is Some) == (r2.lookup(j) is Some) by {
                        assert((p + j).skip(p.len() as int) =~= j);
                        assert(p.is_prefix_of(p + j));
                        assert(f.lookup(p + j) == remaining.lookup(j));
                        assert(g.lookup(p + j) == r2.lookup(j));
                    }
                    lemma_structure_from_keys(*remaining, *r2, path + p);
                } else {
                    lemma_mixed_kinds(f, g, path);
                }
            },
            Fork::Chaotic { min_size, items } => {
                if let Fork::Chaotic { min_size: m2, items: i2 } = g {
                    assert forall|b: u8| #[trigger] items@.contains_key(b) implies i2@.contains_key(b)
                        && items@[b].same_keys(i2@[b]) by {
                        lemma_min_len_bounds(items@[b], path.push(b));
                        let j0 = choose|k: Seq<u8>| #[trigger] items@[b].lookup(k) is Some
                            && path.push(b).len() + k.len() == items@[b].min_len();
                        assert((seq![b] + j0).drop_first() =~= j0);
                        assert(f.lookup(seq![b] + j0) is Some);
                        assert(g.lookup(seq![b] + j0) is Some);
                        assert forall|j: Seq<u8>|
                            #![trigger items@[b].lookup(j)]
                            #![trigger i2@[b].lookup(j)]
                            (items@[b].lookup(j) is Some) == (i2@[b].lookup(j) is Some) by {
                            assert((seq![b] + j).drop_first() =~= j);
                            assert(f.lookup(seq![b] + j) == items@[b].lookup(j));
                            assert(g.lookup(seq![b] + j) == i2@[b].lookup(j));
                        }
                    }
                    assert forall|b: u8| #[trigger] i2@.contains_key(b) implies items@.contains_key(b) by {
                        lemma_min_len_bounds(i2@[b], path.push(b));
                        let j0 = choose|k: Seq<u8>| #[trigger] i2@[b].lookup(k) is Some
                            && path.push(b).len() + k.len() == i2@[b].min_len();
                        assert((seq![b] + j0).drop_first() =~= j0);
                        assert(g.lookup(seq![b] + j0) is Some);
                        assert(f.lookup(seq![b] + j0) is Some);
                    }
                    assert(items@.dom() =~= i2@.dom());
                    assert forall|b: u8| #[trigger] items@.contains_key(b) implies items@[b].same_structure(
                        i2@[b],
                    ) by {
                        assert(decreases_to!(items => items@));
                        lemma_structure_from_keys(items@[b], i2@[b], path.push(b));
                    }
                } else {
                    lemma_mixed_kinds(f, g, path);
                }
            },
            _ => {},
        }
        if f is Empty && !(g is Empty) {
            lemma_mixed_kinds(f, g, path);
        }
    }
}

/// Of two forks that hold items under the same keys, neither `Nil`, one an
/// `End`: both are `End`s of the same structure.
proof fn lemma_ends_same_shape<'a, V>(f: Fork<'a, V>, g: Fork<'a, V>, path: Seq<u8>)
    requires
        f.wf_at(path),
        g.wf_at(path),
        f.canonical(),
        g.canonical(),
        !(f is Nil),
        !(g is Nil),
        f is End || g is End,
        f.same_keys(g),
    ensures
        f.same_structure(g),
{
    lemma_kind(f, path);
    lemma_kind(g, path);
    if let Fork::End { prefix, total_prefix, value } = f {
        assert(f.lookup(prefix@) is Some);
        if !(g is End) {
            let (k1, k2) = choose|k1: Seq<u8>, k2: Seq<u8>|
                #![trigger g.lookup(k1), g.lookup(k2)]
                g.lookup(k1) is Some && g.lookup(k2) is Some && k1 != k2;
            assert(f.lookup(k1) is Some && f.lookup(k2) is Some);
        } else if let Fork::End { prefix: p2, total_prefix: t2, value: v2 } = g {
            assert(g.lookup(p2@) is Some);
            assert(f.lookup(p2@) is Some);
        }
    } else if let Fork::End { prefix, .. } = g {
        assert(g.lookup(prefix@) is Some);
        let (k1, k2) = choose|k1: Seq<u8>, k2: Seq<u8>|
            #![trigger f.lookup(k1), f.lookup(k2)]
            f.lookup(k1) is Some && f.lookup(k2) is Some && k1 != k2;
        assert(g.lookup(k1) is Some && g.lookup(k2) is Some);
    }
}

/// Forks of different kinds, neither `Nil` nor `End`, never hold items under
/// the same keys.
proof fn lemma_mixed_kinds<'a, V>(f: Fork<'a, V>, g: Fork<'a, V>, path: Seq<u8>)
    requires
        f.wf_at(path),
        g.wf_at(path),
        f.canonical(),
        g.canonical(),
        !(f is Nil || f is End),
        !(g is Nil || g is End),
        !(f is Run && g is Run),
        !(f is Chaotic && g is Chaotic),
        !(f is Empty && g is Empty),
    ensures
        !f.same_keys(g),
{
    if f.same_keys(g) {
        lemma_kinds_differ(f, g, path);
    }
}

proof fn lemma_kinds_differ<'a, V>(f: Fork<'a, V>, g: Fork<'a, V>, path: Seq<u8>)
    requires
        f.wf_at(path),
        g.wf_at(path),
        f.canonical(),
        g.canonical(),
        !(f is Nil || f is End),
        !(g is Nil || g is End),
        !(f is Run && g is Run),
        !(f is Chaotic && g is Chaotic),
        !(f is Empty && g is Empty),
        f.same_keys(g),
    ensures
        f.same_structure(g),
{
    lemma_kind(f, path);
    lemma_kind(g, path);
    assert((f.lookup(Seq::empty()) is Some) == (g.lookup(Seq::empty()) is Some));
    if f is Chaotic && g is Run {
        let (k1, k2) = choose|k1: Seq<u8>, k2: Seq<u8>|
            #![trigger f.lookup(k1), f.lookup(k2)]
            f.lookup(k1) is Some && f.lookup(k2) is Some && k1.len() > 0 && k2.len() > 0 && k1[0] != k2[0];
        assert(g.lookup(k1) is Some && g.lookup(k2) is Some);
    } else if f is Run && g is Chaotic {
        let (k1, k2) = choose|k1: Seq<u8>, k2: Seq<u8>|
            #![trigger g.lookup(k1), g.lookup(k2)]
            g.lookup(k1) is Some && g.lookup(k2) is Some && k1.len() > 0 && k2.len() > 0 && k1[0] != k2[0];
        assert(f.lookup(k1) is Some && f.lookup(k2) is Some);
    }
}

/// Of two `Run`s that hold items under the same keys, the first's prefix is at least
/// as long as the second's: after a shorter prefix, the items would not
/// branch or end where a canonical fork needs them to.
proof fn lemma_run_prefix_len<'a, V>(f: Fork<'a, V>, g: Fork<'a, V>, path: Seq<u8>)
    requires
        f.wf_at(path),
        g.wf_at(path),
        f.canonical(),
        g.canonical(),
        f is Run,
        g is Run,
        f.same_keys(g),
    ensures
        f->Run_prefix@.len() >= g->Run_prefix@.len(),
{
    if let Fork::Run { prefix, remaining, .. } = f {
        if let Fork::Run { prefix: p2, .. } = g {
            let p = prefix@;
            let q = p2@;
            if p.len() < q.len() {
                lemma_kind(*remaining, path + p);
                assert forall|j: Seq<u8>| #[trigger] remaining.lookup(j) is Some implies j.len() > 0
                    && j[0] == q[p.len() as int] by {
                    assert((p + j).skip(p.len() as int) =~= j);
                    assert(p.is_prefix_of(p + j));
                    assert(f.lookup(p + j) is Some);
                    assert(g.lookup(p + j) is Some);
                    assert(q.is_prefix_of(p + j));
                    assert((p + j)[p.len() as int] == q[p.len() as int]);
                }
                if *remaining is Chaotic {
                    let (k1, k2) = choose|k1: Seq<u8>, k2: Seq<u8>|
                        #![trigger remaining.lookup(k1), remaining.lookup(k2)]
                        remaining.lookup(k1) is Some && remaining.lookup(k2) is Some && k1.len() > 0
                            && k2.len() > 0 && k1[0] != k2[0];
                    assert(false);
                } else {
                    assert(remaining.lookup(Seq::empty()) is Some);
                    assert(false);
                }
            }
        }
    }
}

/// The shape of a well-formed fork in canonical form depends only on the
/// items it holds: two such forks at `path` that hold the same items have
/// the same shape.
pub proof fn lemma_shape_from_items<'a, V>(f: Fork<'a, V>, g: Fork<'a, V>, path: Seq<u8>)
    requires
        f.wf_at(path),
        g.wf_at(path),
        f.canonical(),
        g.canonical(),
        forall|k: Seq<u8>| #[trigger] f.lookup(k) == g.lookup(k),
    ensures
        f.same_shape(g),
{
    lemma_structure_from_keys(f, g, path);
}

/// The shape of a well-formed fork depends only on the items it holds: two
/// well-formed forks with the same items have the same shape.
pub proof fn lemma_shape_from_view<'a, V>(f: Fork<'a, V>, g: Fork<'a, V>)
    requires
        f.well_formed(),
        g.well_formed(),
        f@ == g@,
    ensures
        f.same_shape(g),
{
    assert forall|k: Seq<u8>| #[trigger] f.lookup(k) == g.lookup(k) by {
        assert(f@.contains_key(k) == (f.lookup(k) is Some));
        assert(g@.contains_key(k) == (g.lookup(k) is Some));
        assert(f@.contains_key(k) == g@.contains_key(k));
        if f.lookup(k) is Some {
            assert(f@[k] == f.lookup(k)->0);
            assert(g@[k] == g.lookup(k)->0);
            assert(f@[k] == g@[k]);
        }
    }
    lemma_shape_from_items(f, g, Seq::empty());
}

} // verus!
