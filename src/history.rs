//! The bounded, deduplicated, recency-ordered history of executed commands.
//!
//! The entries live in an `indexmap::IndexSet`, whose items keep their order
//! of insertion. The most recent command is the last entry. Reading and
//! writing the history file is left to the caller: the store hands out the
//! snapshot to persist after each push, and is rebuilt from a decoded file.
use vstd::prelude::*;
use indexmap::IndexSet;

verus! {

#[verifier::external_type_specification]
#[verifier::external_body]
#[verifier::reject_recursive_types(T)]
#[verifier::reject_recursive_types(S)]
pub struct ExIndexSet<T, S>(IndexSet<T, S>);

/// The items of an `IndexSet<String>`, in their order.
pub uninterp spec fn index_set_items(s: IndexSet<String>) -> Seq<Seq<char>>;

/// The sequence with `v` moved to the end, or appended when it is absent.
pub open spec fn moved_to_end(s: Seq<Seq<char>>, v: Seq<char>) -> Seq<Seq<char>> {
    if s.contains(v) {
        s.remove(s.index_of(v)).push(v)
    } else {
        s.push(v)
    }
}

/// Relies on `IndexSet::new`: the set is empty.
#[verifier::external_body]
fn set_new() -> (r: IndexSet<String>)
    ensures
        index_set_items(r) == Seq::<Seq<char>>::empty(),
{
    IndexSet::new()
}

/// Relies on `IndexSet::len`: the number of items.
#[verifier::external_body]
fn set_len(s: &IndexSet<String>) -> (r: usize)
    ensures
        r == index_set_items(*s).len(),
{
    s.len()
}

/// Relies on `IndexSet::insert`: a value already there leaves the set as it
/// was; another is appended at the end.
#[verifier::external_body]
fn set_insert(s: &mut IndexSet<String>, v: String) -> (r: bool)
    ensures
        r == !index_set_items(*old(s)).contains(v@),
        index_set_items(*final(s)) == (if r {
            index_set_items(*old(s)).push(v@)
        } else {
            index_set_items(*old(s))
        }),
{
    s.insert(v)
}

/// Relies on `IndexSet::insert_before` at the end of the set: a value that is
/// already there moves to the last place, another is appended.
#[verifier::external_body]
fn set_insert_before(s: &mut IndexSet<String>, index: usize, v: String) -> (r: (usize, bool))
    requires
        index == index_set_items(*old(s)).len(),
    ensures
        r.1 == !index_set_items(*old(s)).contains(v@),
        index_set_items(*final(s)) == moved_to_end(index_set_items(*old(s)), v@),
{
    s.insert_before(index, v)
}

/// Relies on `IndexSet::drain` over `0..n`: the first `n` items are removed.
#[verifier::external_body]
fn set_drain_front(s: &mut IndexSet<String>, n: usize)
    requires
        n <= index_set_items(*old(s)).len(),
    ensures
        index_set_items(*final(s)) == index_set_items(*old(s)).skip(n as int),
{
    s.drain(0..n);
}

/// Relies on `IndexSet::iter`: the items, cloned, in their order.
#[verifier::external_body]
fn set_to_vec(s: &IndexSet<String>) -> (r: Vec<String>)
    ensures
        r@.map_values(|x: String| x@) == index_set_items(*s),
{
    s.iter().cloned().collect()
}

/// The sequence with each value kept at its first occurrence only.
pub open spec fn first_occurrences(s: Seq<Seq<char>>) -> Seq<Seq<char>>
    decreases s.len(),
{
    if s.len() == 0 {
        s
    } else {
        let d = first_occurrences(s.drop_last());
        if d.contains(s.last()) {
            d
        } else {
            d.push(s.last())
        }
    }
}

/// The entries after pushing `v` onto `s` with capacity `cap`: `v` becomes the
/// most recent entry, and the oldest entries go until at most `cap` remain.
pub open spec fn pushed(s: Seq<Seq<char>>, v: Seq<char>, cap: nat) -> Seq<Seq<char>> {
    let m = moved_to_end(s, v);
    if m.len() > cap {
        m.skip(m.len() - cap)
    } else {
        m
    }
}

/// Where the history is kept besides memory.
#[derive(Debug, Clone, Copy, PartialEq, Eq, Structural)]
pub enum HistoryBackingStore {
    /// Each push is followed by a rewrite of the history file.
    File,
    /// Nothing outlives the process.
    Memory,
}

/// What the caller found when it looked for the history file.
pub enum HistorySource {
    /// No directory for the history file could be found or created, or the
    /// file could not be opened.
    Unavailable,
    /// The file's raw contents, with the commands decoded from them, or `None`
    /// where they could not be decoded.
    File { contents: Vec<u8>, decoded: Option<Vec<String>> },
}

/// Why the history could not be set up.
#[derive(Debug, Clone, Copy, PartialEq, Eq, Structural)]
pub enum HistoryError {
    /// The history file could not be reached.
    Unavailable,
    /// The history file is not empty and does not hold a history.
    Malformed,
}

/// The history of executed commands.
pub struct History {
    backing_store: HistoryBackingStore,
    elements: IndexSet<String>,
    cap: usize,
}

impl View for History {
    type V = Seq<Seq<char>>;

    /// The commands, least recent first.
    closed spec fn view(&self) -> Seq<Seq<char>> {
        index_set_items(self.elements)
    }
}

/// The outcome of `History::new` for a capacity and a source.
pub open spec fn new_spec(source: HistorySource) -> Result<Seq<Seq<char>>, HistoryError> {
    match source {
        HistorySource::Unavailable => Err(HistoryError::Unavailable),
        HistorySource::File { contents, decoded } => if contents@.len() == 0 {
            Ok(Seq::empty())
        } else {
            match decoded {
                Some(v) => Ok(first_occurrences(v@.map_values(|x: String| x@))),
                None => Err(HistoryError::Malformed),
            }
        },
    }
}

impl History {
    /// No command is held twice.
    pub closed spec fn wf(&self) -> bool {
        self@.no_duplicates()
    }

    pub closed spec fn capacity(&self) -> nat {
        self.cap as nat
    }

    pub closed spec fn backing(&self) -> HistoryBackingStore {
        self.backing_store
    }

    /// An empty history kept in memory only.
    pub fn from_mem(cap: usize) -> (r: History)
        ensures
            r.wf(),
            r@ == Seq::<Seq<char>>::empty(),
            r.capacity() == cap,
            r.backing() == HistoryBackingStore::Memory,
    {
        History { backing_store: HistoryBackingStore::Memory, elements: set_new(), cap }
    }

    /// A history rebuilt from stored commands, least recent first; a command
    /// that appears twice keeps its first place.
    pub fn from_records(cap: usize, records: Vec<String>, backing_store: HistoryBackingStore) -> (r: History)
        ensures
            r.wf(),
            r@ == first_occurrences(records@.map_values(|x: String| x@)),
            r.capacity() == cap,
            r.backing() == backing_store,
    {
        let ghost rs = records@.map_values(|x: String| x@);
        let mut elements = set_new();
        let mut i: usize = 0;
        proof {
            assert(rs.take(0) =~= Seq::<Seq<char>>::empty());
        }
        while i < records.len()
            invariant
                i <= records.len(),
                rs == records@.map_values(|x: String| x@),
                index_set_items(elements) == first_occurrences(rs.take(i as int)),
                index_set_items(elements).no_duplicates(),
            decreases records.len() - i,
        {
            let v = records[i].clone();
            set_insert(&mut elements, v);
            proof {
                assert(rs.take(i + 1).drop_last() =~= rs.take(i as int));
            }
            i = i + 1;
        }
        proof {
            assert(rs.take(i as int) =~= rs);
        }
        History { backing_store, elements, cap }
    }

    /// Sets up the history from what the caller found of its file: an empty
    /// file is an empty history, one that could not be decoded is an error.
    pub fn new(cap: usize, source: HistorySource) -> (r: Result<History, HistoryError>)
        ensures
            match (r, new_spec(source)) {
                (Ok(h), Ok(s)) => h.wf() && h@ == s && h.capacity() == cap
                    && h.backing() == HistoryBackingStore::File,
                (Err(e), Err(f)) => e == f,
                _ => false,
            },
    {
        match source {
            HistorySource::Unavailable => Err(HistoryError::Unavailable),
            HistorySource::File { contents, decoded } => {
                if contents.len() == 0 {
                    let h = History { backing_store: HistoryBackingStore::File, elements: set_new(), cap };
                    Ok(h)
                } else {
                    match decoded {
                        Some(v) => Ok(History::from_records(cap, v, HistoryBackingStore::File)),
                        None => Err(HistoryError::Malformed),
                    }
                }
            },
        }
    }

    /// Records an executed command as the most recent entry. A command that
    /// is already there moves to the end; then the oldest entries are dropped
    /// until at most `cap` remain.
    pub fn push(&mut self, value: String)
        requires
            old(self).wf(),
        ensures
            final(self).wf(),
            final(self)@ == pushed(old(self)@, value@, old(self).capacity()),
            final(self)@.len() <= final(self).capacity(),
            final(self).capacity() == old(self).capacity(),
            final(self).backing() == old(self).backing(),
    {
        let ghost v = value@;
        let len = set_len(&self.elements);
        set_insert_before(&mut self.elements, len, value);
        proof {
            lemma_moved_to_end_no_duplicates(old(self)@, v);
        }
        let len2 = set_len(&self.elements);
        if len2 > self.cap {
            set_drain_front(&mut self.elements, len2 - self.cap);
            proof {
                lemma_skip_no_duplicates(moved_to_end(old(self)@, v), (len2 - self.cap) as int);
            }
        }
    }

    /// The commands, least recent first.
    pub fn elements(&self) -> (r: Vec<String>)
        ensures
            r@.map_values(|x: String| x@) == self@,
    {
        set_to_vec(&self.elements)
    }

    /// The number of commands held.
    pub fn len(&self) -> (r: usize)
        ensures
            r == self@.len(),
    {
        set_len(&self.elements)
    }

    /// The capacity.
    pub fn cap(&self) -> (r: usize)
        ensures
            r == self.capacity(),
    {
        self.cap
    }

    /// Whether each push has to be followed by a rewrite of the history file.
    pub fn is_persistent(&self) -> (r: bool)
        ensures
            r == (self.backing() == HistoryBackingStore::File),
    {
        match self.backing_store {
            HistoryBackingStore::File => true,
            HistoryBackingStore::Memory => false,
        }
    }
}

/// The entries after pushing each of `vs` in turn.
pub open spec fn pushed_all(s: Seq<Seq<char>>, vs: Seq<Seq<char>>, cap: nat) -> Seq<Seq<char>>
    decreases vs.len(),
{
    if vs.len() == 0 {
        s
    } else {
        pushed(pushed_all(s, vs.drop_last(), cap), vs.last(), cap)
    }
}

/// One push keeps the entries free of duplicates and within the capacity.
pub proof fn lemma_push_bounded(s: Seq<Seq<char>>, v: Seq<char>, cap: nat)
    requires
        s.no_duplicates(),
    ensures
        pushed(s, v, cap).no_duplicates(),
        pushed(s, v, cap).len() <= cap,
{
    lemma_moved_to_end_no_duplicates(s, v);
    let m = moved_to_end(s, v);
    if m.len() > cap {
        lemma_skip_no_duplicates(m, m.len() - cap);
    }
}

/// After any non-empty sequence of pushes, no command is held twice and at
/// most `cap` are held.
pub proof fn lemma_pushes_bounded(s: Seq<Seq<char>>, vs: Seq<Seq<char>>, cap: nat)
    requires
        s.no_duplicates(),
    ensures
        pushed_all(s, vs, cap).no_duplicates(),
        vs.len() > 0 ==> pushed_all(s, vs, cap).len() <= cap,
    decreases vs.len(),
{
    if vs.len() > 0 {
        lemma_pushes_bounded(s, vs.drop_last(), cap);
        lemma_push_bounded(pushed_all(s, vs.drop_last(), cap), vs.last(), cap);
    }
}

/// Pushing a command that is already held moves it to the most recent place,
/// keeps the others in their order, and does not change the size.
pub proof fn lemma_repush_moves_to_end(s: Seq<Seq<char>>, v: Seq<char>, cap: nat)
    requires
        s.no_duplicates(),
        s.contains(v),
        s.len() <= cap,
    ensures
        pushed(s, v, cap) == s.remove(s.index_of(v)).push(v),
        pushed(s, v, cap).len() == s.len(),
        pushed(s, v, cap).last() == v,
{
    lemma_moved_to_end_no_duplicates(s, v);
}

/// With capacity 0 a push leaves no entry.
pub proof fn lemma_zero_capacity(s: Seq<Seq<char>>, v: Seq<char>)
    ensures
        pushed(s, v, 0) == Seq::<Seq<char>>::empty(),
{
    let m = moved_to_end(s, v);
    assert(m.skip(m.len() as int) =~= Seq::<Seq<char>>::empty());
}

/// Storing the entries of a history and rebuilding it from them gives the
/// same entries in the same order.
pub proof fn lemma_round_trip(s: Seq<Seq<char>>)
    requires
        s.no_duplicates(),
    ensures
        first_occurrences(s) == s,
    decreases s.len(),
{
    if s.len() > 0 {
        let t = s.drop_last();
        assert(t.no_duplicates());
        lemma_round_trip(t);
        assert(!t.contains(s.last())) by {
            if t.contains(s.last()) {
                let k = t.index_of(s.last());
                assert(s[k] == s[s.len() - 1]);
            }
        }
        assert(t.push(s.last()) =~= s);
    }
}

proof fn lemma_moved_to_end_no_duplicates(s: Seq<Seq<char>>, v: Seq<char>)
    requires
        s.no_duplicates(),
    ensures
        moved_to_end(s, v).no_duplicates(),
        s.contains(v) ==> moved_to_end(s, v).len() == s.len(),
        !s.contains(v) ==> moved_to_end(s, v).len() == s.len() + 1,
        moved_to_end(s, v).last() == v,
{
    if s.contains(v) {
        let i = s.index_of(v);
        let r = s.remove(i);
        assert forall|a: int, b: int| 0 <= a < r.len() && 0 <= b < r.len() && a != b implies r[a] != r[b] by {
            let a2 = if a < i { a } else { a + 1 };
            let b2 = if b < i { b } else { b + 1 };
            assert(r[a] == s[a2]);
            assert(r[b] == s[b2]);
        }
        assert forall|a: int| 0 <= a < r.len() implies r[a] != v by {
            let a2 = if a < i { a } else { a + 1 };
            assert(r[a] == s[a2]);
        }
        assert(!r.contains(v));
    }
}

proof fn lemma_skip_no_duplicates(s: Seq<Seq<char>>, n: int)
    requires
        s.no_duplicates(),
        0 <= n <= s.len(),
    ensures
        s.skip(n).no_duplicates(),
{
    assert forall|a: int, b: int| 0 <= a < s.skip(n).len() && 0 <= b < s.skip(n).len() && a != b implies s.skip(n)[a] != s.skip(n)[b] by {
        assert(s.skip(n)[a] == s[a + n]);
        assert(s.skip(n)[b] == s[b + n]);
    }
}

} // verus!
