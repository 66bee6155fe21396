//! An ordered pool of unique characters, held in an `IndexSet`.

use indexmap::IndexSet;
use vstd::prelude::*;

verus! {

/// indexmap's `IndexSet`; what it holds is read through `set_items`.
#[verifier::external_type_specification]
#[verifier::external_body]
#[verifier::reject_recursive_types(T)]
#[verifier::reject_recursive_types(S)]
pub struct ExIndexSet<T, S>(IndexSet<T, S>);

/// Relies on the `Clone` impl of `IndexSet`: the copy holds the same values in the same
/// order.
#[verifier::external_body]
fn set_clone(s: &IndexSet<char>) -> (r: IndexSet<char>)
    ensures
        set_items(r) == set_items(*s),
{
    s.clone()
}

/// The characters that an `IndexSet` holds, in its index order.
pub uninterp spec fn set_items(s: IndexSet<char>) -> Seq<char>;

/// Relies on `IndexSet::new`: a new set holds nothing.
#[verifier::external_body]
fn set_new() -> (r: IndexSet<char>)
    ensures
        set_items(r) == Seq::<char>::empty(),
{
    IndexSet::new()
}

/// Relies on `IndexSet::len`: the number of values held.
#[verifier::external_body]
fn set_len(s: &IndexSet<char>) -> (r: usize)
    ensures
        r == set_items(*s).len(),
{
    s.len()
}

/// Relies on `IndexSet::insert`: an absent value is appended; a present one leaves the
/// set as it was.
#[verifier::external_body]
fn set_insert(s: &mut IndexSet<char>, ch: char) -> (r: bool)
    ensures
        r == !set_items(*old(s)).contains(ch),
        set_items(*final(s)) == inserted(set_items(*old(s)), ch),
{
    s.insert(ch)
}

/// Relies on `IndexSet::contains`: whether the value is held.
#[verifier::external_body]
fn set_contains(s: &IndexSet<char>, ch: char) -> (r: bool)
    ensures
        r == set_items(*s).contains(ch),
{
    s.contains(&ch)
}

/// Relies on `IndexSet::get_index`: the value at a position, if the position is held.
#[verifier::external_body]
fn set_get_index(s: &IndexSet<char>, index: usize) -> (r: Option<&char>)
    ensures
        index < set_items(*s).len() ==> r == Some(&set_items(*s)[index as int]),
        index >= set_items(*s).len() ==> r is None,
{
    s.get_index(index)
}

/// Relies on `IndexSet::swap_remove`: the value found is replaced by the last one, as
/// `Vec::swap_remove` does.
#[verifier::external_body]
fn set_swap_remove(s: &mut IndexSet<char>, ch: char) -> (r: bool)
    ensures
        r == set_items(*old(s)).contains(ch),
        !r ==> set_items(*final(s)) == set_items(*old(s)),
        r ==> exists|i: int|
            0 <= i < set_items(*old(s)).len() && set_items(*old(s))[i] == ch
                && set_items(*final(s)) == swap_removed(set_items(*old(s)), i),
{
    s.swap_remove(&ch)
}

/// Relies on `IndexSet::shift_remove`: the values after the one found move down by one,
/// as `Vec::remove` does.
#[verifier::external_body]
fn set_shift_remove(s: &mut IndexSet<char>, ch: char) -> (r: bool)
    ensures
        r == set_items(*old(s)).contains(ch),
        !r ==> set_items(*final(s)) == set_items(*old(s)),
        r ==> exists|i: int|
            0 <= i < set_items(*old(s)).len() && set_items(*old(s))[i] == ch
                && set_items(*final(s)) == set_items(*old(s)).remove(i),
{
    s.shift_remove(&ch)
}

/// Relies on `IndexSet::sort`: the values are put in ascending order; the values of an
/// `IndexSet` are distinct, so the order is strict.
#[verifier::external_body]
fn set_sort(s: &mut IndexSet<char>)
    ensures
        set_items(*final(s)).len() == set_items(*old(s)).len(),
        forall|c: char| set_items(*final(s)).contains(c) <==> set_items(*old(s)).contains(c),
        strictly_ascending(set_items(*final(s))),
{
    s.sort()
}

/// Relies on `String::push`: the character is appended.
#[verifier::external_body]
pub(crate) fn push_char(s: &mut String, ch: char)
    ensures
        final(s)@ == old(s)@.push(ch),
{
    s.push(ch)
}

/// `s` with `ch` appended, unless it already holds `ch`.
pub open spec fn inserted(s: Seq<char>, ch: char) -> Seq<char> {
    if s.contains(ch) {
        s
    } else {
        s.push(ch)
    }
}

/// `s` after inserting each character of `cs` in turn.
pub open spec fn inserted_all(s: Seq<char>, cs: Seq<char>) -> Seq<char>
    decreases cs.len(),
{
    if cs.len() == 0 {
        s
    } else {
        inserted(inserted_all(s, cs.drop_last()), cs.last())
    }
}

/// The distinct characters of `cs`, each at the place where it first occurs.
pub open spec fn distinct_chars(cs: Seq<char>) -> Seq<char> {
    inserted_all(Seq::empty(), cs)
}

/// `s` without its element at `i`, the last element moved into that slot.
pub open spec fn swap_removed(s: Seq<char>, i: int) -> Seq<char> {
    s.update(i, s.last()).drop_last()
}

/// `s` after a swap removal of `ch`, or `s` itself where `ch` is absent.
pub open spec fn without_swapped(s: Seq<char>, ch: char) -> Seq<char> {
    if s.contains(ch) {
        swap_removed(s, s.index_of(ch))
    } else {
        s
    }
}

/// `s` after a shifting removal of `ch`, or `s` itself where `ch` is absent.
pub open spec fn without_shifted(s: Seq<char>, ch: char) -> Seq<char> {
    if s.contains(ch) {
        s.remove(s.index_of(ch))
    } else {
        s
    }
}

/// `s` after a swap removal of each character of `cs` in turn.
pub open spec fn removed_all(s: Seq<char>, cs: Seq<char>) -> Seq<char>
    decreases cs.len(),
{
    if cs.len() == 0 {
        s
    } else {
        without_swapped(removed_all(s, cs.drop_last()), cs.last())
    }
}

/// Each character of `s` has a smaller code point than the next one.
pub open spec fn strictly_ascending(s: Seq<char>) -> bool {
    forall|i: int, j: int| 0 <= i < j < s.len() ==> (s[i] as u32) < (s[j] as u32)
}

proof fn lemma_inserted_no_duplicates(s: Seq<char>, ch: char)
    requires
        s.no_duplicates(),
    ensures
        inserted(s, ch).no_duplicates(),
        inserted(s, ch).to_set() == s.to_set().insert(ch),
{
    assert(inserted(s, ch).to_set() =~= s.to_set().insert(ch)) by {
        if !s.contains(ch) {
            assert(s.push(ch)[s.len() as int] == ch);
            assert forall|c: char| s.push(ch).contains(c) implies s.to_set().insert(ch).contains(c) by {
                let k = choose|k: int| 0 <= k < s.len() + 1 && s.push(ch)[k] == c;
                if k < s.len() {
                    assert(s[k] == c);
                }
            }
            assert forall|c: char| s.to_set().insert(ch).contains(c) implies s.push(ch).contains(c) by {
                if c != ch {
                    let k = choose|k: int| 0 <= k < s.len() && s[k] == c;
                    assert(s.push(ch)[k] == c);
                }
            }
        }
    }
}

proof fn lemma_inserted_all_no_duplicates(s: Seq<char>, cs: Seq<char>)
    requires
        s.no_duplicates(),
    ensures
        inserted_all(s, cs).no_duplicates(),
        inserted_all(s, cs).to_set() == s.to_set() + cs.to_set(),
    decreases cs.len(),
{
    if cs.len() == 0 {
        assert(cs.to_set() =~= Set::<char>::empty());
        assert(s.to_set() + cs.to_set() =~= s.to_set());
    } else {
        lemma_inserted_all_no_duplicates(s, cs.drop_last());
        lemma_inserted_no_duplicates(inserted_all(s, cs.drop_last()), cs.last());
        assert(cs.to_set() =~= cs.drop_last().to_set().insert(cs.last())) by {
            assert forall|c: char| cs.to_set().contains(c) implies cs.drop_last().to_set().insert(cs.last()).contains(c) by {
                let k = choose|k: int| 0 <= k < cs.len() && cs[k] == c;
                if k < cs.len() - 1 {
                    assert(cs.drop_last()[k] == c);
                }
            }
            assert forall|c: char| cs.drop_last().to_set().insert(cs.last()).contains(c) implies cs.to_set().contains(c) by {
                if c != cs.last() {
                    let k = choose|k: int| 0 <= k < cs.len() - 1 && cs.drop_last()[k] == c;
                    assert(cs[k] == c);
                } else {
                    assert(cs[cs.len() - 1] == c);
                }
            }
        }
        assert(inserted_all(s, cs).to_set() =~= s.to_set() + cs.to_set());
    }
}

proof fn lemma_swap_removed_no_duplicates(s: Seq<char>, i: int)
    requires
        s.no_duplicates(),
        0 <= i < s.len(),
    ensures
        swap_removed(s, i).no_duplicates(),
{
    let r = swap_removed(s, i);
    assert forall|j: int, k: int| 0 <= j < r.len() && 0 <= k < r.len() && j != k implies r[j] != r[k] by {
        let jj = if j == i { s.len() - 1 } else { j };
        let kk = if k == i { s.len() - 1 } else { k };
        assert(r[j] == s[jj]);
        assert(r[k] == s[kk]);
    }
}

proof fn lemma_without_swapped(s: Seq<char>, ch: char)
    requires
        s.no_duplicates(),
    ensures
        without_swapped(s, ch).no_duplicates(),
        without_swapped(s, ch).to_set() == s.to_set().remove(ch),
{
    if s.contains(ch) {
        let i = s.index_of(ch);
        let r = swap_removed(s, i);
        lemma_swap_removed_no_duplicates(s, i);
        assert forall|c: char| r.contains(c) implies s.to_set().remove(ch).contains(c) by {
            let j = choose|j: int| 0 <= j < r.len() && r[j] == c;
            let jj = if j == i { s.len() - 1 } else { j };
            assert(s[jj] == c);
        }
        assert forall|c: char| s.to_set().remove(ch).contains(c) implies r.contains(c) by {
            let k = choose|k: int| 0 <= k < s.len() && s[k] == c;
            if k < s.len() - 1 {
                assert(r[k] == c);
            } else {
                assert(r[i] == c);
            }
        }
        assert(r.to_set() =~= s.to_set().remove(ch));
    } else {
        assert(s.to_set().remove(ch) =~= s.to_set());
    }
}

proof fn lemma_without_shifted(s: Seq<char>, ch: char)
    requires
        s.no_duplicates(),
    ensures
        without_shifted(s, ch).no_duplicates(),
        without_shifted(s, ch).to_set() == s.to_set().remove(ch),
{
    if s.contains(ch) {
        let i = s.index_of(ch);
        let r = s.remove(i);
        lemma_removed_no_duplicates(s, i);
        assert forall|c: char| r.contains(c) implies s.to_set().remove(ch).contains(c) by {
            let j = choose|j: int| 0 <= j < r.len() && r[j] == c;
            let jj = if j < i { j } else { j + 1 };
            assert(s[jj] == c);
        }
        assert forall|c: char| s.to_set().remove(ch).contains(c) implies r.contains(c) by {
            let k = choose|k: int| 0 <= k < s.len() && s[k] == c;
            if k < i {
                assert(r[k] == c);
            } else {
                assert(r[k - 1] == c);
            }
        }
        assert(r.to_set() =~= s.to_set().remove(ch));
    } else {
        assert(s.to_set().remove(ch) =~= s.to_set());
    }
}

proof fn lemma_removed_all(s: Seq<char>, cs: Seq<char>)
    requires
        s.no_duplicates(),
    ensures
        removed_all(s, cs).no_duplicates(),
        removed_all(s, cs).to_set() == s.to_set().difference(cs.to_set()),
    decreases cs.len(),
{
    if cs.len() == 0 {
        assert(s.to_set().difference(cs.to_set()) =~= s.to_set());
    } else {
        let init = cs.drop_last();
        lemma_removed_all(s, init);
        lemma_without_swapped(removed_all(s, init), cs.last());
        assert forall|c: char| cs.to_set().contains(c) <==> (init.to_set().contains(c) || c == cs.last()) by {
            if cs.to_set().contains(c) {
                let k = choose|k: int| 0 <= k < cs.len() && cs[k] == c;
                if k < cs.len() - 1 {
                    assert(init[k] == c);
                }
            }
            if init.to_set().contains(c) {
                let k = choose|k: int| 0 <= k < init.len() && init[k] == c;
                assert(cs[k] == c);
            }
            if c == cs.last() {
                assert(cs[cs.len() - 1] == c);
            }
        }
        assert(removed_all(s, cs).to_set() =~= s.to_set().difference(cs.to_set()));
    }
}

proof fn lemma_removed_no_duplicates(s: Seq<char>, i: int)
    requires
        s.no_duplicates(),
        0 <= i < s.len(),
    ensures
        s.remove(i).no_duplicates(),
{
    let r = s.remove(i);
    assert forall|j: int, k: int| 0 <= j < r.len() && 0 <= k < r.len() && j != k implies r[j] != r[k] by {
        let jj = if j < i { j } else { j + 1 };
        let kk = if k < i { k } else { k + 1 };
        assert(r[j] == s[jj]);
        assert(r[k] == s[kk]);
    }
}

proof fn lemma_distinct_chars_of_unique(s: Seq<char>)
    requires
        s.no_duplicates(),
    ensures
        distinct_chars(s) == s,
    decreases s.len(),
{
    if s.len() == 0 {
        assert(s =~= Seq::<char>::empty());
    } else {
        let init = s.drop_last();
        assert(init.no_duplicates());
        lemma_distinct_chars_of_unique(init);
        assert(!init.contains(s.last())) by {
            if init.contains(s.last()) {
                let k = choose|k: int| 0 <= k < init.len() && init[k] == s.last();
                assert(s[k] == s[s.len() - 1]);
            }
        }
        assert(init.push(s.last()) =~= s);
    }
}

/// Parsing the string form of a pool gives back the same characters in the same order:
/// `Pool::parse` keeps the distinct characters of a string, `Pool::to_string` writes the
/// characters of the pool, and those are already distinct.
pub proof fn lemma_parse_to_string_round_trip(p: Pool)
    requires
        p.wf(),
    ensures
        distinct_chars(p@) == p@,
{
    lemma_distinct_chars_of_unique(p@);
}

/// Inserting a character is idempotent: a second insertion of the same character changes
/// nothing, neither the length nor the order of the others.
pub proof fn lemma_insert_idempotent(s: Seq<char>, ch: char)
    ensures
        inserted(s, ch).contains(ch),
        inserted(inserted(s, ch), ch) == inserted(s, ch),
{
    if !s.contains(ch) {
        assert(s.push(ch)[s.len() as int] == ch);
    }
}

/// Collection of unique characters, kept in the order they were added. Two pools compare
/// equal when they hold the same characters, whatever their order.
#[derive(Debug, PartialEq, Eq)]
pub struct Pool(IndexSet<char>);

impl View for Pool {
    type V = Seq<char>;

    closed spec fn view(&self) -> Seq<char> {
        set_items(self.0)
    }
}

impl Pool {
    /// A pool never holds one character twice.
    pub open spec fn wf(&self) -> bool {
        self@.no_duplicates()
    }

    /// Creates an empty pool.
    pub fn new() -> (r: Pool)
        ensures
            r.wf(),
            r@ == Seq::<char>::empty(),
    {
        Pool(set_new())
    }

    /// Builds a pool from `chars`, each character at the place where it first occurs.
    pub fn from_iter(chars: Vec<char>) -> (r: Pool)
        ensures
            r.wf(),
            r@ == distinct_chars(chars@),
    {
        let mut pool = Pool::new();
        pool.extend(chars);
        pool
    }

    /// Returns the number of characters in the pool.
    pub fn len(&self) -> (r: usize)
        ensures
            r == self@.len(),
    {
        set_len(&self.0)
    }

    /// Builds a pool from the distinct characters of `s`, in the order they first occur.
    pub fn parse(s: &str) -> (r: Pool)
        ensures
            r.wf(),
            r@ == distinct_chars(s@),
            r@.to_set() == s@.to_set(),
            r@.len() == s@.to_set().len(),
    {
        let mut pool = Pool::new();
        let _ = pool.extend_from_string(s);
        proof {
            lemma_inserted_all_no_duplicates(Seq::empty(), s@);
            assert(Seq::<char>::empty().to_set() + s@.to_set() =~= s@.to_set());
            pool@.unique_seq_to_set();
        }
        pool
    }

    /// Returns true if the pool holds no character.
    pub fn is_empty(&self) -> (r: bool)
        ensures
            r == (self@.len() == 0),
    {
        set_len(&self.0) == 0
    }

    /// Returns the character at `index`, if `index` is below the length.
    pub fn get(&self, index: usize) -> (r: Option<&char>)
        ensures
            index < self@.len() ==> r == Some(&self@[index as int]),
            index >= self@.len() ==> r is None,
    {
        set_get_index(&self.0, index)
    }

    /// Returns true if `ch` is in the pool.
    pub fn contains(&self, ch: char) -> (r: bool)
        ensures
            r == self@.contains(ch),
    {
        set_contains(&self.0, ch)
    }

    /// Returns true if the pool holds each character of `elements`.
    pub fn contains_all(&self, elements: &str) -> (r: bool)
        ensures
            r == (forall|i: int| 0 <= i < elements@.len() ==> self@.contains(#[trigger] elements@[i])),
    {
        let n = elements.unicode_len();
        let mut i: usize = 0;
        while i < n
            invariant
                n == elements@.len(),
                i <= n,
                forall|k: int| 0 <= k < i ==> self@.contains(#[trigger] elements@[k]),
            decreases n - i,
        {
            if !set_contains(&self.0, elements.get_char(i)) {
                return false;
            }
            i = i + 1;
        }
        true
    }

    /// Adds `ch` at the end of the pool, unless the pool already holds it.
    pub fn insert(&mut self, ch: char)
        requires
            old(self).wf(),
        ensures
            final(self).wf(),
            final(self)@ == inserted(old(self)@, ch),
            old(self)@.contains(ch) ==> final(self)@ == old(self)@,
    {
        proof {
            lemma_inserted_no_duplicates(self@, ch);
        }
        set_insert(&mut self.0, ch);
    }

    /// Inserts each character of `chars` in turn.
    pub fn extend(&mut self, chars: Vec<char>)
        requires
            old(self).wf(),
        ensures
            final(self).wf(),
            final(self)@ == inserted_all(old(self)@, chars@),
    {
        let n = chars.len();
        let mut i: usize = 0;
        while i < n
            invariant
                n == chars@.len(),
                i <= n,
                self.wf(),
                self@ == inserted_all(old(self)@, chars@.take(i as int)),
            decreases n - i,
        {
            assert(chars@.take(i + 1).drop_last() =~= chars@.take(i as int));
            self.insert(chars[i]);
            i = i + 1;
        }
        assert(chars@.take(n as int) =~= chars@);
    }

    /// Inserts each character of `s` in turn.
    pub fn extend_from_string(&mut self, s: &str) -> (r: &mut Self)
        requires
            old(self).wf(),
        ensures
            r.wf(),
            r@ == inserted_all(old(self)@, s@),
            *final(self) == *final(r),
    {
        let n = s.unicode_len();
        let mut i: usize = 0;
        while i < n
            invariant
                n == s@.len(),
                i <= n,
                self.wf(),
                self@ == inserted_all(old(self)@, s@.take(i as int)),
            decreases n - i,
        {
            assert(s@.take(i + 1).drop_last() =~= s@.take(i as int));
            self.insert(s.get_char(i));
            i = i + 1;
        }
        assert(s@.take(n as int) =~= s@);
        self
    }

    /// Returns the characters of the pool, in order.
    pub fn iter(&self) -> (r: Vec<char>)
        ensures
            r@ == self@,
    {
        let n = set_len(&self.0);
        let mut r: Vec<char> = Vec::new();
        let mut i: usize = 0;
        while i < n
            invariant
                n == self@.len(),
                i <= n,
                r@ == self@.take(i as int),
            decreases n - i,
        {
            let c = set_get_index(&self.0, i);
            r.push(*c.unwrap());
            assert(r@ =~= self@.take(i + 1));
            i = i + 1;
        }
        assert(self@.take(n as int) =~= self@);
        r
    }

    /// Returns the characters of the pool, in order, as one string.
    pub fn to_string(&self) -> (r: String)
        ensures
            r@ == self@,
    {
        let n = set_len(&self.0);
        let mut r = String::new();
        let mut i: usize = 0;
        while i < n
            invariant
                n == self@.len(),
                i <= n,
                r@ == self@.take(i as int),
            decreases n - i,
        {
            let c = set_get_index(&self.0, i);
            push_char(&mut r, *c.unwrap());
            assert(r@ =~= self@.take(i + 1));
            i = i + 1;
        }
        assert(self@.take(n as int) =~= self@);
        r
    }

    /// Removes `ch`, moving the last character into its slot. Returns whether `ch` was
    /// in the pool.
    pub fn swap_remove(&mut self, ch: &char) -> (r: bool)
        requires
            old(self).wf(),
        ensures
            final(self).wf(),
            r == old(self)@.contains(*ch),
            final(self)@ == without_swapped(old(self)@, *ch),
            final(self)@.to_set() == old(self)@.to_set().remove(*ch),
    {
        let ghost before = self@;
        let r = set_swap_remove(&mut self.0, *ch);
        proof {
            if r {
                let i = choose|i: int|
                    0 <= i < before.len() && before[i] == *ch && self@ == swap_removed(before, i);
                assert(before.index_of(*ch) == i);
            }
            lemma_without_swapped(before, *ch);
        }
        r
    }

    /// Removes `ch`, moving the characters after it down by one. Returns whether `ch`
    /// was in the pool.
    pub fn shift_remove(&mut self, ch: &char) -> (r: bool)
        requires
            old(self).wf(),
        ensures
            final(self).wf(),
            r == old(self)@.contains(*ch),
            final(self)@ == without_shifted(old(self)@, *ch),
            final(self)@.to_set() == old(self)@.to_set().remove(*ch),
    {
        let ghost before = self@;
        let r = set_shift_remove(&mut self.0, *ch);
        proof {
            if r {
                let i = choose|i: int|
                    0 <= i < before.len() && before[i] == *ch && self@ == before.remove(i);
                assert(before.index_of(*ch) == i);
            }
            lemma_without_shifted(before, *ch);
        }
        r
    }

    /// Swap-removes each character of `elements` in turn; absent ones are skipped.
    pub fn remove_all(&mut self, elements: &str)
        requires
            old(self).wf(),
        ensures
            final(self).wf(),
            final(self)@ == removed_all(old(self)@, elements@),
            final(self)@.to_set() == old(self)@.to_set().difference(elements@.to_set()),
    {
        let n = elements.unicode_len();
        let mut i: usize = 0;
        while i < n
            invariant
                n == elements@.len(),
                i <= n,
                self.wf(),
                self@ == removed_all(old(self)@, elements@.take(i as int)),
            decreases n - i,
        {
            assert(elements@.take(i + 1).drop_last() =~= elements@.take(i as int));
            let ch = elements.get_char(i);
            self.swap_remove(&ch);
            i = i + 1;
        }
        assert(elements@.take(n as int) =~= elements@);
        proof {
            lemma_removed_all(old(self)@, elements@);
        }
    }

    /// Puts the characters in ascending order of code point.
    pub fn sort(&mut self)
        requires
            old(self).wf(),
        ensures
            final(self).wf(),
            final(self)@.len() == old(self)@.len(),
            final(self)@.to_set() == old(self)@.to_set(),
            strictly_ascending(final(self)@),
    {
        set_sort(&mut self.0);
        proof {
            assert(self@.to_set() =~= old(self)@.to_set());
            assert forall|i: int, j: int| 0 <= i < self@.len() && 0 <= j < self@.len() && i != j implies self@[i] != self@[j] by {
                if i < j {
                    assert((self@[i] as u32) < (self@[j] as u32));
                } else {
                    assert((self@[j] as u32) < (self@[i] as u32));
                }
            }
        }
    }
}

impl Default for Pool {
    fn default() -> (r: Pool)
        ensures
            r.wf(),
            r@ == Seq::<char>::empty(),
    {
        Pool::new()
    }
}

impl Clone for Pool {
    fn clone(&self) -> (r: Pool)
        ensures
            r@ == self@,
    {
        Pool(set_clone(&self.0))
    }
}

impl std::str::FromStr for Pool {
    type Err = core::convert::Infallible;

    fn from_str(s: &str) -> (r: Result<Pool, core::convert::Infallible>)
        ensures
            r matches Ok(p) && p.wf() && p@ == distinct_chars(s@),
    {
        Ok(Pool::parse(s))
    }
}

} // verus!
