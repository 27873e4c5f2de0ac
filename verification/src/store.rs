//! One configuration file's worth of entries: lookup by code, append,
//! removal, relabelling, and the sort that keeps listings deterministic.

use vstd::multiset::Multiset;
use vstd::prelude::*;

use crate::entry::{Entry, EntryView};
use crate::order::chars_le;
use crate::order::lemma_chars_le_total;
use crate::order::lemma_chars_le_trans;
use crate::order::str_le;

verus! {

/// The views of a sequence of entries.
pub open spec fn entries_view(entries: Seq<Entry>) -> Seq<EntryView> {
    entries.map_values(|e: Entry| e@)
}

/// The codes of a sequence of entries, in entry order.
pub open spec fn codes_of(s: Seq<EntryView>) -> Seq<Seq<char>> {
    s.map_values(|e: EntryView| e.code)
}

/// Index of the first entry whose code is `code`; `s.len()` when none matches.
pub open spec fn first_code_index(s: Seq<EntryView>, code: Seq<char>) -> int
    decreases s.len(),
{
    if s.len() == 0 {
        0
    } else if s[0].code == code {
        0
    } else {
        1 + first_code_index(s.drop_first(), code)
    }
}

/// Whether some entry of `s` carries `code`.
pub open spec fn has_code(s: Seq<EntryView>, code: Seq<char>) -> bool {
    exists|i: int| 0 <= i < s.len() && (#[trigger] s[i]).code == code
}

/// The first entry of `s` whose code is `code`.
pub open spec fn found_entry(s: Seq<EntryView>, code: Seq<char>) -> EntryView {
    s[first_code_index(s, code)]
}

/// `first_code_index` points at the first match, and misses exactly when no
/// entry matches.
pub proof fn lemma_first_code_index(s: Seq<EntryView>, code: Seq<char>)
    ensures
        0 <= first_code_index(s, code) <= s.len(),
        first_code_index(s, code) < s.len() ==> s[first_code_index(s, code)].code == code,
        forall|j: int| 0 <= j < first_code_index(s, code) ==> (#[trigger] s[j]).code != code,
        has_code(s, code) <==> first_code_index(s, code) < s.len(),
    decreases s.len(),
{
    if s.len() == 0 {
        assert(!has_code(s, code));
    } else if s[0].code == code {
        assert(has_code(s, code));
    } else {
        let rest = s.drop_first();
        lemma_first_code_index(rest, code);
        let f = first_code_index(s, code);
        assert(forall|j: int| 0 <= j < f ==> (#[trigger] s[j]).code != code) by {
            assert(forall|j: int| 1 <= j < f ==> s[j] == rest[j - 1]);
        }
        if has_code(s, code) {
            let w = choose|i: int| 0 <= i < s.len() && (#[trigger] s[i]).code == code;
            assert(w != 0);
            assert(rest[w - 1] == s[w]);
            assert(has_code(rest, code));
        }
        if has_code(rest, code) {
            let w = choose|i: int| 0 <= i < rest.len() && (#[trigger] rest[i]).code == code;
            assert(s[w + 1] == rest[w]);
            assert(has_code(s, code));
        }
    }
}

/// One configuration file, loaded into memory: a version tag that is only
/// round-tripped, the entries, and the path the file will be written back to.
#[derive(Debug, PartialEq, Eq)]
pub struct NemFile {
    pub version: String,
    pub entries: Vec<Entry>,
    pub file_name: String,
}

/// The mathematical value of a [`NemFile`].
pub struct NemFileView {
    pub version: Seq<char>,
    pub entries: Seq<EntryView>,
    pub file_name: Seq<char>,
}

impl View for NemFile {
    type V = NemFileView;

    open spec fn view(&self) -> NemFileView {
        NemFileView {
            version: self.version@,
            entries: entries_view(self.entries@),
            file_name: self.file_name@,
        }
    }
}

impl NemFile {
    /// Builds a store from its parts.
    pub fn new(version: String, entries: Vec<Entry>, file_name: String) -> (r: NemFile)
        ensures
            r@ == (NemFileView {
                version: version@,
                entries: entries_view(entries@),
                file_name: file_name@,
            }),
    {
        NemFile { version, entries, file_name }
    }

    /// Every code in this store, in entry order.
    pub fn codes(&self) -> (r: Vec<String>)
        ensures
            r.deep_view() == codes_of(self@.entries),
    {
        let mut r: Vec<String> = Vec::new();
        let n = self.entries.len();
        let mut i: usize = 0;
        while i < n
            invariant
                n == self.entries@.len(),
                i <= n,
                r@.len() == i,
                forall|j: int| 0 <= j < i ==> (#[trigger] r@[j])@ == self@.entries[j].code,
            decreases n - i,
        {
            r.push(self.entries[i].code.clone());
            i = i + 1;
        }
        proof {
            assert(r.deep_view() =~= codes_of(self@.entries));
        }
        r
    }

    /// Appends unconditionally; uniqueness of codes is the caller's concern.
    pub fn add_entry(&mut self, entry: Entry)
        ensures
            final(self)@.entries == old(self)@.entries.push(entry@),
            final(self)@.version == old(self)@.version,
            final(self)@.file_name == old(self)@.file_name,
    {
        self.entries.push(entry);
        proof {
            assert(self@.entries =~= old(self)@.entries.push(entry@));
        }
    }

    /// Removes and returns the first entry carrying `code`; `None` and no
    /// change when the code is absent.
    pub fn rm_entry(&mut self, code: &String) -> (r: Option<Entry>)
        ensures
            ({
                let s = old(self)@.entries;
                if has_code(s, code@) {
                    &&& r matches Some(e) && e@ == found_entry(s, code@)
                    &&& final(self)@.entries == s.remove(first_code_index(s, code@))
                } else {
                    &&& r is None
                    &&& *final(self) == *old(self)
                }
            }),
            final(self)@.version == old(self)@.version,
            final(self)@.file_name == old(self)@.file_name,
    {
        let n = self.entries.len();
        let mut i: usize = 0;
        while i < n
            invariant
                *self == *old(self),
                n == self.entries@.len(),
                i <= n,
                forall|j: int| 0 <= j < i ==> (#[trigger] self@.entries[j]).code != code@,
            decreases n - i,
        {
            if self.entries[i].code == *code {
                proof {
                    lemma_first_code_index(self@.entries, code@);
                    assert(self@.entries[i as int].code == code@);
                    assert(has_code(self@.entries, code@));
                    assert(first_code_index(self@.entries, code@) == i);
                }
                let e = self.entries.remove(i);
                proof {
                    assert(self@.entries =~= old(self)@.entries.remove(i as int));
                }
                return Some(e);
            }
            i = i + 1;
        }
        proof {
            lemma_first_code_index(self@.entries, code@);
        }
        None
    }

    /// The first entry carrying `code`, or `None`.
    pub fn find_entry_by_code(&self, code: &String) -> (r: Option<&Entry>)
        ensures
            match r {
                Some(e) => has_code(self@.entries, code@) && e@ == found_entry(
                    self@.entries,
                    code@,
                ),
                None => !has_code(self@.entries, code@),
            },
    {
        let n = self.entries.len();
        let mut i: usize = 0;
        while i < n
            invariant
                n == self.entries@.len(),
                i <= n,
                forall|j: int| 0 <= j < i ==> (#[trigger] self@.entries[j]).code != code@,
            decreases n - i,
        {
            if self.entries[i].code == *code {
                proof {
                    lemma_first_code_index(self@.entries, code@);
                    assert(self@.entries[i as int].code == code@);
                    assert(has_code(self@.entries, code@));
                    assert(first_code_index(self@.entries, code@) == i);
                }
                return Some(&self.entries[i]);
            }
            i = i + 1;
        }
        proof {
            lemma_first_code_index(self@.entries, code@);
        }
        None
    }

    /// A mutable borrow of the first entry carrying `code`, for in-place
    /// edits; `None` and no change when the code is absent.
    pub fn find_entry_by_code_mut(&mut self, code: &String) -> (r: Option<&mut Entry>)
        ensures
            ({
                let s = old(self)@.entries;
                match r {
                    Some(e) => {
                        &&& has_code(s, code@)
                        &&& (*e)@ == found_entry(s, code@)
                        &&& final(self).entries@ == old(self).entries@.update(
                            first_code_index(s, code@),
                            *final(e),
                        )
                        &&& final(self).version == old(self).version
                        &&& final(self).file_name == old(self).file_name
                    },
                    None => !has_code(s, code@) && *final(self) == *old(self),
                }
            }),
    {
        let n = self.entries.len();
        let mut i: usize = 0;
        while i < n
            invariant
                *self == *old(self),
                n == self.entries@.len(),
                i <= n,
                forall|j: int| 0 <= j < i ==> (#[trigger] self@.entries[j]).code != code@,
            decreases n - i,
        {
            if self.entries[i].code == *code {
                proof {
                    lemma_first_code_index(self@.entries, code@);
                    assert(self@.entries[i as int].code == code@);
                    assert(has_code(self@.entries, code@));
                    assert(first_code_index(self@.entries, code@) == i);
                }
                return Some(&mut self.entries[i]);
            }
            i = i + 1;
        }
        proof {
            lemma_first_code_index(self@.entries, code@);
        }
        None
    }

    /// Relabels the first entry carrying `old_code` with `new_code` and
    /// returns a copy of the changed entry. Whether `new_code` collides with
    /// an existing code is the caller's concern, across the whole chain.
    pub fn edit_code(&mut self, old_code: &String, new_code: &String) -> (r: Option<Entry>)
        ensures
            ({
                let s = old(self)@.entries;
                let changed = EntryView {
                    cmd: found_entry(s, old_code@).cmd,
                    code: new_code@,
                    desc: found_entry(s, old_code@).desc,
                };
                if has_code(s, old_code@) {
                    &&& r matches Some(e) && e@ == changed
                    &&& final(self)@.entries == s.update(first_code_index(s, old_code@), changed)
                } else {
                    &&& r is None
                    &&& *final(self) == *old(self)
                }
            }),
            final(self)@.version == old(self)@.version,
            final(self)@.file_name == old(self)@.file_name,
    {
        let n = self.entries.len();
        let mut i: usize = 0;
        while i < n
            invariant
                *self == *old(self),
                n == self.entries@.len(),
                i <= n,
                forall|j: int| 0 <= j < i ==> (#[trigger] self@.entries[j]).code != old_code@,
            decreases n - i,
        {
            if self.entries[i].code == *old_code {
                proof {
                    lemma_first_code_index(self@.entries, old_code@);
                    assert(self@.entries[i as int].code == old_code@);
                    assert(has_code(self@.entries, old_code@));
                    assert(first_code_index(self@.entries, old_code@) == i);
                }
                let e = self.entries.remove(i);
                let changed = Entry { cmd: e.cmd, code: new_code.clone(), desc: e.desc };
                let out = changed.clone();
                self.entries.insert(i, changed);
                proof {
                    assert(self@.entries =~= old(self)@.entries.update(i as int, out@));
                }
                return Some(out);
            }
            i = i + 1;
        }
        proof {
            lemma_first_code_index(self@.entries, old_code@);
        }
        None
    }
}

/// `e` placed into `s` after every entry whose command is no greater: the
/// step of a stable insertion sort by command text.
pub open spec fn insert_sorted(e: EntryView, s: Seq<EntryView>) -> Seq<EntryView>
    decreases s.len(),
{
    if s.len() == 0 {
        seq![e]
    } else if chars_le(s[0].cmd, e.cmd) {
        seq![s[0]] + insert_sorted(e, s.drop_first())
    } else {
        seq![e] + s
    }
}

/// The stable sort of `s` by command text: what [`NemFile::sort`] produces.
pub open spec fn sort_entries(s: Seq<EntryView>) -> Seq<EntryView>
    decreases s.len(),
{
    if s.len() == 0 {
        Seq::<EntryView>::empty()
    } else {
        insert_sorted(s.last(), sort_entries(s.drop_last()))
    }
}

/// Entries stand in ascending order of command text.
pub open spec fn sorted_by_cmd(s: Seq<EntryView>) -> bool {
    forall|i: int, j: int|
        #![trigger s[i], s[j]]
        0 <= i < j < s.len() ==> chars_le(s[i].cmd, s[j].cmd)
}

pub proof fn lemma_insert_sorted_multiset(e: EntryView, s: Seq<EntryView>)
    ensures
        insert_sorted(e, s).to_multiset() == s.to_multiset().insert(e),
    decreases s.len(),
{
    broadcast use vstd::seq_lib::group_to_multiset_ensures;

    if s.len() == 0 {
        assert(seq![e] =~= Seq::<EntryView>::empty().push(e));
    } else if chars_le(s[0].cmd, e.cmd) {
        lemma_insert_sorted_multiset(e, s.drop_first());
        vstd::seq_lib::lemma_multiset_commutative(seq![s[0]], insert_sorted(e, s.drop_first()));
        vstd::seq_lib::lemma_multiset_commutative(seq![s[0]], s.drop_first());
        assert(s =~= seq![s[0]] + s.drop_first());
        assert(insert_sorted(e, s).to_multiset() =~= s.to_multiset().insert(e));
    } else {
        vstd::seq_lib::lemma_multiset_commutative(seq![e], s);
        assert(seq![e].to_multiset() =~= Multiset::<EntryView>::empty().insert(e));
        assert(insert_sorted(e, s).to_multiset() =~= s.to_multiset().insert(e));
    }
}

/// A bound below the inserted entry and below all of `s` is a bound below
/// every entry of the result.
proof fn lemma_insert_sorted_lower(c: Seq<char>, e: EntryView, s: Seq<EntryView>)
    requires
        chars_le(c, e.cmd),
        forall|i: int| 0 <= i < s.len() ==> chars_le(c, (#[trigger] s[i]).cmd),
    ensures
        forall|i: int|
            0 <= i < insert_sorted(e, s).len() ==> chars_le(c, (#[trigger] insert_sorted(e, s)[i]).cmd),
    decreases s.len(),
{
    if s.len() == 0 {
    } else if chars_le(s[0].cmd, e.cmd) {
        assert(forall|i: int|
            0 <= i < s.drop_first().len() ==> chars_le(c, (#[trigger] s.drop_first()[i]).cmd));
        lemma_insert_sorted_lower(c, e, s.drop_first());
        assert forall|i: int| 0 <= i < insert_sorted(e, s).len() implies chars_le(
            c,
            (#[trigger] insert_sorted(e, s)[i]).cmd,
        ) by {
            if i > 0 {
                assert(insert_sorted(e, s)[i] == insert_sorted(e, s.drop_first())[i - 1]);
            }
        }
    } else {
    }
}

pub proof fn lemma_insert_sorted_sorted(e: EntryView, s: Seq<EntryView>)
    requires
        sorted_by_cmd(s),
    ensures
        sorted_by_cmd(insert_sorted(e, s)),
    decreases s.len(),
{
    if s.len() == 0 {
    } else if chars_le(s[0].cmd, e.cmd) {
        let rest = s.drop_first();
        lemma_insert_sorted_sorted(e, rest);
        assert(forall|i: int| 0 <= i < rest.len() ==> chars_le(s[0].cmd, (#[trigger] rest[i]).cmd));
        lemma_insert_sorted_lower(s[0].cmd, e, rest);
        let r = insert_sorted(e, s);
        assert forall|i: int, j: int|
            #![trigger r[i], r[j]]
            0 <= i < j < r.len() implies chars_le(r[i].cmd, r[j].cmd) by {
            if i > 0 {
                assert(r[i] == insert_sorted(e, rest)[i - 1]);
                assert(r[j] == insert_sorted(e, rest)[j - 1]);
            } else {
                assert(r[j] == insert_sorted(e, rest)[j - 1]);
            }
        }
    } else {
        lemma_chars_le_total(s[0].cmd, e.cmd);
        let r = insert_sorted(e, s);
        assert forall|i: int, j: int|
            #![trigger r[i], r[j]]
            0 <= i < j < r.len() implies chars_le(r[i].cmd, r[j].cmd) by {
            if i == 0 {
                if j == 1 {
                    assert(r[j] == s[0]);
                } else {
                    assert(r[j] == s[j - 1]);
                    lemma_chars_le_trans(e.cmd, s[0].cmd, s[j - 1].cmd);
                }
            } else {
                assert(r[i] == s[i - 1]);
                assert(r[j] == s[j - 1]);
            }
        }
    }
}

pub proof fn lemma_sort_entries_sorted(s: Seq<EntryView>)
    ensures
        sorted_by_cmd(sort_entries(s)),
    decreases s.len(),
{
    if s.len() > 0 {
        lemma_sort_entries_sorted(s.drop_last());
        lemma_insert_sorted_sorted(s.last(), sort_entries(s.drop_last()));
    }
}

/// The sort reorders entries and neither adds, drops, nor changes any: the
/// entry multiset is preserved.
pub proof fn lemma_sort_entries_multiset(s: Seq<EntryView>)
    ensures
        sort_entries(s).to_multiset() == s.to_multiset(),
    decreases s.len(),
{
    broadcast use vstd::seq_lib::group_to_multiset_ensures;

    if s.len() > 0 {
        lemma_sort_entries_multiset(s.drop_last());
        lemma_insert_sorted_multiset(s.last(), sort_entries(s.drop_last()));
        assert(s =~= s.drop_last().push(s.last()));
        assert(sort_entries(s).to_multiset() =~= s.to_multiset());
    }
}

/// Inserting an entry no smaller than all of `s` appends it.
proof fn lemma_insert_sorted_all_le(e: EntryView, s: Seq<EntryView>)
    requires
        forall|i: int| 0 <= i < s.len() ==> chars_le((#[trigger] s[i]).cmd, e.cmd),
    ensures
        insert_sorted(e, s) == s.push(e),
    decreases s.len(),
{
    if s.len() == 0 {
        assert(insert_sorted(e, s) =~= s.push(e));
    } else {
        let rest = s.drop_first();
        assert(forall|i: int| 0 <= i < rest.len() ==> chars_le((#[trigger] rest[i]).cmd, e.cmd));
        lemma_insert_sorted_all_le(e, rest);
        assert(insert_sorted(e, s) =~= s.push(e));
    }
}

/// An already-sorted sequence is a fixed point of the sort.
pub proof fn lemma_sort_entries_of_sorted(s: Seq<EntryView>)
    requires
        sorted_by_cmd(s),
    ensures
        sort_entries(s) == s,
    decreases s.len(),
{
    if s.len() > 0 {
        let front = s.drop_last();
        assert(sorted_by_cmd(front)) by {
            assert(forall|i: int| 0 <= i < front.len() ==> front[i] == s[i]);
        }
        lemma_sort_entries_of_sorted(front);
        assert(forall|i: int|
            0 <= i < front.len() ==> chars_le((#[trigger] front[i]).cmd, s.last().cmd));
        lemma_insert_sorted_all_le(s.last(), front);
        assert(sort_entries(s) =~= s);
    }
}

/// Sorting is idempotent: a second sort of an already-sorted entry sequence
/// yields the identical sequence.
pub proof fn lemma_sort_idempotent(s: Seq<EntryView>)
    ensures
        sort_entries(sort_entries(s)) == sort_entries(s),
{
    lemma_sort_entries_sorted(s);
    lemma_sort_entries_of_sorted(sort_entries(s));
}

/// Inserting at the first position whose entry is strictly greater agrees
/// with `insert_sorted`.
proof fn lemma_insert_sorted_at(e: EntryView, s: Seq<EntryView>, k: int)
    requires
        0 <= k <= s.len(),
        forall|j: int| 0 <= j < k ==> chars_le((#[trigger] s[j]).cmd, e.cmd),
        k < s.len() ==> !chars_le(s[k].cmd, e.cmd),
    ensures
        insert_sorted(e, s) == s.insert(k, e),
    decreases s.len(),
{
    if s.len() == 0 {
        assert(insert_sorted(e, s) =~= s.insert(0, e));
    } else if k == 0 {
        assert(insert_sorted(e, s) =~= s.insert(0, e));
    } else {
        let rest = s.drop_first();
        assert(forall|j: int| 0 <= j < k - 1 ==> chars_le((#[trigger] rest[j]).cmd, e.cmd)) by {
            assert(forall|j: int| 0 <= j < k - 1 ==> rest[j] == s[j + 1]);
        }
        assert(k - 1 < rest.len() ==> !chars_le(rest[k - 1].cmd, e.cmd));
        lemma_insert_sorted_at(e, rest, k - 1);
        assert(insert_sorted(e, s) =~= s.insert(k, e));
    }
}

impl NemFile {
    /// Reorders the entries into ascending order of command text, stably and
    /// in place.
    pub fn sort(&mut self)
        ensures
            final(self)@.entries == sort_entries(old(self)@.entries),
            final(self)@.version == old(self)@.version,
            final(self)@.file_name == old(self)@.file_name,
    {
        let n = self.entries.len();
        let mut out: Vec<Entry> = Vec::new();
        let mut i: usize = 0;
        proof {
            assert(entries_view(out@) =~= sort_entries(old(self)@.entries.subrange(0, 0)));
        }
        while i < n
            invariant
                *self == *old(self),
                n == self.entries@.len(),
                i <= n,
                entries_view(out@) == sort_entries(old(self)@.entries.subrange(0, i as int)),
            decreases n - i,
        {
            let e = self.entries[i].clone();
            let ghost prev = entries_view(out@);
            let m = out.len();
            let mut k: usize = 0;
            loop
                invariant_except_break
                    m == out@.len(),
                    k <= m,
                    entries_view(out@) == prev,
                    e@ == old(self)@.entries[i as int],
                    forall|j: int| 0 <= j < k ==> chars_le((#[trigger] prev[j]).cmd, e@.cmd),
                ensures
                    m == out@.len(),
                    k <= m,
                    entries_view(out@) == prev,
                    forall|j: int| 0 <= j < k ==> chars_le((#[trigger] prev[j]).cmd, e@.cmd),
                    k < m ==> !chars_le(prev[k as int].cmd, e@.cmd),
                decreases m - k,
            {
                if k == m {
                    break ;
                }
                if !str_le(out[k].cmd.as_str(), e.cmd.as_str()) {
                    break ;
                }
                k = k + 1;
            }
            out.insert(k, e);
            proof {
                lemma_insert_sorted_at(old(self)@.entries[i as int], prev, k as int);
                assert(entries_view(out@) =~= prev.insert(k as int, old(self)@.entries[i as int]));
                let next = old(self)@.entries.subrange(0, i + 1);
                assert(next.drop_last() =~= old(self)@.entries.subrange(0, i as int));
                assert(next.last() == old(self)@.entries[i as int]);
                assert(entries_view(out@) == sort_entries(next));
            }
            i = i + 1;
        }
        proof {
            assert(old(self)@.entries.subrange(0, n as int) =~= old(self)@.entries);
        }
        self.entries = out;
    }
}

} // verus!
