//! The ordered chain of stores discovered along the directory ancestry,
//! nearest first. Lookups scan nearest-first, so a nearer store's entry for a
//! code shadows a farther store's entry with the same code; mutations are
//! routed to exactly one store.

use vstd::prelude::*;

use crate::entry::{Entry, EntryView};
use crate::store::{
    codes_of, first_code_index, found_entry, has_code, lemma_first_code_index, sort_entries,
    NemFile, NemFileView,
};

verus! {

/// The views of a sequence of stores.
pub open spec fn files_view(files: Seq<NemFile>) -> Seq<NemFileView> {
    files.map_values(|f: NemFile| f@)
}

/// The chain of stores visible from a working directory, nearest first.
pub struct NemFiles {
    pub nem_files: Vec<NemFile>,
}

impl View for NemFiles {
    type V = Seq<NemFileView>;

    open spec fn view(&self) -> Seq<NemFileView> {
        files_view(self.nem_files@)
    }
}

/// Every code visible in the chain, nearest store first, each store's codes
/// in entry order.
pub open spec fn chain_codes(files: Seq<NemFileView>) -> Seq<Seq<char>>
    decreases files.len(),
{
    if files.len() == 0 {
        Seq::<Seq<char>>::empty()
    } else {
        codes_of(files[0].entries) + chain_codes(files.drop_first())
    }
}

/// Index of the nearest store holding `code`; `files.len()` when none does.
pub open spec fn first_store_index(files: Seq<NemFileView>, code: Seq<char>) -> int
    decreases files.len(),
{
    if files.len() == 0 {
        0
    } else if has_code(files[0].entries, code) {
        0
    } else {
        1 + first_store_index(files.drop_first(), code)
    }
}

/// Whether any store of the chain holds `code`.
pub open spec fn chain_has_code(files: Seq<NemFileView>, code: Seq<char>) -> bool {
    exists|i: int| 0 <= i < files.len() && has_code((#[trigger] files[i]).entries, code)
}

/// What a lookup of `code` resolves to: the first matching entry of the
/// nearest store that holds the code.
pub open spec fn chain_found_entry(files: Seq<NemFileView>, code: Seq<char>) -> EntryView {
    found_entry(files[first_store_index(files, code)].entries, code)
}

/// `first_store_index` points at the nearest store holding the code, and
/// misses exactly when no store does.
pub proof fn lemma_first_store_index(files: Seq<NemFileView>, code: Seq<char>)
    ensures
        0 <= first_store_index(files, code) <= files.len(),
        first_store_index(files, code) < files.len() ==> has_code(
            files[first_store_index(files, code)].entries,
            code,
        ),
        forall|j: int|
            0 <= j < first_store_index(files, code) ==> !has_code(
                (#[trigger] files[j]).entries,
                code,
            ),
        chain_has_code(files, code) <==> first_store_index(files, code) < files.len(),
    decreases files.len(),
{
    if files.len() == 0 {
        assert(!chain_has_code(files, code));
    } else if has_code(files[0].entries, code) {
        assert(chain_has_code(files, code));
    } else {
        let rest = files.drop_first();
        lemma_first_store_index(rest, code);
        let f = first_store_index(files, code);
        assert(forall|j: int| 0 <= j < f ==> !has_code((#[trigger] files[j]).entries, code)) by {
            assert(forall|j: int| 1 <= j < f ==> files[j] == rest[j - 1]);
        }
        if chain_has_code(files, code) {
            let w = choose|i: int|
                0 <= i < files.len() && has_code((#[trigger] files[i]).entries, code);
            assert(w != 0);
            assert(rest[w - 1] == files[w]);
            assert(chain_has_code(rest, code));
        }
        if chain_has_code(rest, code) {
            let w = choose|i: int| 0 <= i < rest.len() && has_code((#[trigger] rest[i]).entries, code);
            assert(files[w + 1] == rest[w]);
            assert(chain_has_code(files, code));
        }
    }
}

/// Appending a store at the far end appends its codes.
proof fn lemma_chain_codes_push(files: Seq<NemFileView>, f: NemFileView)
    ensures
        chain_codes(files.push(f)) == chain_codes(files) + codes_of(f.entries),
    decreases files.len(),
{
    if files.len() == 0 {
        assert(files.push(f).drop_first() =~= files);
        assert(chain_codes(files) =~= Seq::<Seq<char>>::empty());
        assert(chain_codes(files.push(f)) =~= chain_codes(files) + codes_of(f.entries));
    } else {
        assert(files.push(f).drop_first() =~= files.drop_first().push(f));
        lemma_chain_codes_push(files.drop_first(), f);
        assert(chain_codes(files.push(f)) =~= chain_codes(files) + codes_of(f.entries));
    }
}

impl NemFiles {
    /// Builds a chain from stores listed nearest first.
    pub fn new(nem_files: Vec<NemFile>) -> (r: NemFiles)
        ensures
            r@ == files_view(nem_files@),
    {
        NemFiles { nem_files }
    }

    /// The nearest store: the one mutations that create entries go to.
    pub fn cur_nem_file_mut(&mut self) -> (r: &mut NemFile)
        requires
            old(self).nem_files@.len() > 0,
        ensures
            *r == old(self).nem_files@[0],
            final(self).nem_files@ == old(self).nem_files@.update(0, *final(r)),
    {
        &mut self.nem_files[0]
    }

    /// Every code visible in the chain, nearest store first.
    pub fn codes(&self) -> (r: Vec<String>)
        ensures
            r.deep_view() == chain_codes(self@),
    {
        let mut r: Vec<String> = Vec::new();
        let n = self.nem_files.len();
        let mut i: usize = 0;
        proof {
            assert(r.deep_view() =~= chain_codes(self@.subrange(0, 0)));
        }
        while i < n
            invariant
                n == self.nem_files@.len(),
                i <= n,
                r.deep_view() == chain_codes(self@.subrange(0, i as int)),
            decreases n - i,
        {
            let mut c = self.nem_files[i].codes();
            let ghost r_before = r.deep_view();
            let ghost c_view = c.deep_view();
            r.append(&mut c);
            proof {
                assert(r.deep_view() =~= r_before + c_view);
                lemma_chain_codes_push(self@.subrange(0, i as int), self@[i as int]);
                assert(self@.subrange(0, i + 1) =~= self@.subrange(0, i as int).push(
                    self@[i as int],
                ));
            }
            i = i + 1;
        }
        proof {
            assert(self@.subrange(0, n as int) =~= self@);
        }
        r
    }

    /// Sorts every store of the chain independently.
    pub fn sort(&mut self)
        ensures
            final(self)@.len() == old(self)@.len(),
            forall|i: int|
                0 <= i < old(self)@.len() ==> {
                    &&& (#[trigger] final(self)@[i]).entries == sort_entries(old(self)@[i].entries)
                    &&& final(self)@[i].version == old(self)@[i].version
                    &&& final(self)@[i].file_name == old(self)@[i].file_name
                },
    {
        let n = self.nem_files.len();
        let mut i: usize = 0;
        while i < n
            invariant
                n == self.nem_files@.len(),
                n == old(self).nem_files@.len(),
                i <= n,
                forall|j: int| i <= j < n ==> self.nem_files@[j] == old(self).nem_files@[j],
                forall|j: int|
                    0 <= j < i ==> {
                        &&& (#[trigger] self.nem_files@[j])@.entries == sort_entries(
                            old(self).nem_files@[j]@.entries,
                        )
                        &&& self.nem_files@[j]@.version == old(self).nem_files@[j]@.version
                        &&& self.nem_files@[j]@.file_name == old(self).nem_files@[j]@.file_name
                    },
            decreases n - i,
        {
            let ghost before = self.nem_files@;
            let f = &mut self.nem_files[i];
            f.sort();
            proof {
                assert(self.nem_files@ == before.update(i as int, self.nem_files@[i as int]));
                assert(forall|j: int| 0 <= j < n && j != i ==> self.nem_files@[j] == (
                #[trigger] before[j]));
            }
            i = i + 1;
        }
        proof {
            assert forall|j: int| 0 <= j < n implies {
                &&& (#[trigger] self@[j]).entries == sort_entries(old(self)@[j].entries)
                &&& self@[j].version == old(self)@[j].version
                &&& self@[j].file_name == old(self)@[j].file_name
            } by {
                assert(self@[j] == self.nem_files@[j]@);
                assert(old(self)@[j] == old(self).nem_files@[j]@);
            }
        }
    }

    /// Appends the entry to the nearest store; the chain must not be empty,
    /// which command-level callers check first.
    pub fn add_entry(&mut self, entry: Entry)
        requires
            old(self)@.len() > 0,
        ensures
            final(self)@.len() == old(self)@.len(),
            final(self)@[0].entries == old(self)@[0].entries.push(entry@),
            final(self)@[0].version == old(self)@[0].version,
            final(self)@[0].file_name == old(self)@[0].file_name,
            forall|j: int| 1 <= j < old(self)@.len() ==> final(self)@[j] == old(self)@[j],
    {
        let nem_file = self.cur_nem_file_mut();
        nem_file.add_entry(entry);
    }

    /// Removes `code` from the nearest store that holds it and returns the
    /// removed entry; `None` and no change when no store holds it.
    pub fn rm_entry(&mut self, code: &String) -> (r: Option<Entry>)
        ensures
            ({
                let files = old(self)@;
                if chain_has_code(files, code@) {
                    let si = first_store_index(files, code@);
                    let s = files[si].entries;
                    &&& r matches Some(e) && e@ == chain_found_entry(files, code@)
                    &&& final(self)@.len() == files.len()
                    &&& final(self)@[si].entries == s.remove(first_code_index(s, code@))
                    &&& final(self)@[si].version == files[si].version
                    &&& final(self)@[si].file_name == files[si].file_name
                    &&& forall|j: int|
                        0 <= j < files.len() && j != si ==> final(self)@[j] == files[j]
                } else {
                    &&& r is None
                    &&& *final(self) == *old(self)
                }
            }),
    {
        let n = self.nem_files.len();
        let mut i: usize = 0;
        while i < n
            invariant
                *self == *old(self),
                n == self.nem_files@.len(),
                i <= n,
                forall|j: int| 0 <= j < i ==> !has_code((#[trigger] self@[j]).entries, code@),
            decreases n - i,
        {
            if self.nem_files[i].find_entry_by_code(code).is_some() {
                proof {
                    lemma_first_store_index(self@, code@);
                    assert(self@[i as int] == self.nem_files@[i as int]@);
                    assert(has_code(self@[i as int].entries, code@));
                    assert(chain_has_code(self@, code@));
                    assert(first_store_index(self@, code@) == i);
                }
                let f = &mut self.nem_files[i];
                let r = f.rm_entry(code);
                return r;
            }
            i = i + 1;
        }
        proof {
            lemma_first_store_index(self@, code@);
        }
        None
    }

    /// The entry `code` resolves to, scanning stores nearest first: this is
    /// the shadowing rule.
    pub fn find_entry_by_code(&self, code: &String) -> (r: Option<&Entry>)
        ensures
            match r {
                Some(e) => chain_has_code(self@, code@) && e@ == chain_found_entry(self@, code@),
                None => !chain_has_code(self@, code@),
            },
    {
        let n = self.nem_files.len();
        let mut i: usize = 0;
        while i < n
            invariant
                n == self.nem_files@.len(),
                i <= n,
                forall|j: int| 0 <= j < i ==> !has_code((#[trigger] self@[j]).entries, code@),
            decreases n - i,
        {
            match self.nem_files[i].find_entry_by_code(code) {
                Some(e) => {
                    proof {
                        lemma_first_store_index(self@, code@);
                        assert(self@[i as int] == self.nem_files@[i as int]@);
                        assert(has_code(self@[i as int].entries, code@));
                        assert(chain_has_code(self@, code@));
                        assert(first_store_index(self@, code@) == i);
                    }
                    return Some(e);
                },
                None => {},
            }
            i = i + 1;
        }
        proof {
            lemma_first_store_index(self@, code@);
        }
        None
    }

    /// Relabels `old_code` with `new_code` in the nearest store that holds
    /// `old_code`. Collision checking against the whole chain is the
    /// command-level caller's duty.
    pub fn edit_code(&mut self, old_code: &String, new_code: &String) -> (r: Option<Entry>)
        ensures
            ({
                let files = old(self)@;
                if chain_has_code(files, old_code@) {
                    let si = first_store_index(files, old_code@);
                    let s = files[si].entries;
                    let ci = first_code_index(s, old_code@);
                    let changed = EntryView { cmd: s[ci].cmd, code: new_code@, desc: s[ci].desc };
                    &&& r matches Some(e) && e@ == changed
                    &&& final(self)@.len() == files.len()
                    &&& final(self)@[si].entries == s.update(ci, changed)
                    &&& final(self)@[si].version == files[si].version
                    &&& final(self)@[si].file_name == files[si].file_name
                    &&& forall|j: int|
                        0 <= j < files.len() && j != si ==> final(self)@[j] == files[j]
                } else {
                    &&& r is None
                    &&& *final(self) == *old(self)
                }
            }),
    {
        let n = self.nem_files.len();
        let mut i: usize = 0;
        while i < n
            invariant
                *self == *old(self),
                n == self.nem_files@.len(),
                i <= n,
                forall|j: int| 0 <= j < i ==> !has_code((#[trigger] self@[j]).entries, old_code@),
            decreases n - i,
        {
            if self.nem_files[i].find_entry_by_code(old_code).is_some() {
                proof {
                    lemma_first_store_index(self@, old_code@);
                    assert(self@[i as int] == self.nem_files@[i as int]@);
                    assert(has_code(self@[i as int].entries, old_code@));
                    assert(chain_has_code(self@, old_code@));
                    assert(first_store_index(self@, old_code@) == i);
                }
                let f = &mut self.nem_files[i];
                let r = f.edit_code(old_code, new_code);
                return r;
            }
            i = i + 1;
        }
        proof {
            lemma_first_store_index(self@, old_code@);
        }
        None
    }
}

/// Shadowing: when the nearest store holds a code, a chain-wide lookup of
/// that code resolves to that store's entry, whatever farther stores hold.
pub proof fn lemma_shadowing(files: Seq<NemFileView>, code: Seq<char>)
    requires
        files.len() > 0,
        has_code(files[0].entries, code),
    ensures
        chain_has_code(files, code),
        chain_found_entry(files, code) == found_entry(files[0].entries, code),
{
    assert(chain_has_code(files, code));
}

/// Removing a code that is visible at most once across the chain makes a
/// later lookup of that code miss. (A code inherited by several stores, or
/// repeated inside one store, survives the removal of one occurrence.)
pub proof fn lemma_remove_then_miss(
    files: Seq<NemFileView>,
    after: Seq<NemFileView>,
    code: Seq<char>,
)
    requires
        chain_has_code(files, code),
        // at most one store holds the code
        forall|i: int, j: int|
            0 <= i < files.len() && 0 <= j < files.len() && has_code(
                (#[trigger] files[i]).entries,
                code,
            ) && has_code((#[trigger] files[j]).entries, code) ==> i == j,
        // and it holds the code at most once
        forall|i: int, k: int, l: int|
            0 <= i < files.len() && 0 <= k < (#[trigger] files[i]).entries.len() && 0 <= l
                < files[i].entries.len() && (#[trigger] files[i].entries[k]).code == code && (
            #[trigger] files[i].entries[l]).code == code ==> k == l,
        // `after` is the chain that `rm_entry` leaves
        after.len() == files.len(),
        after[first_store_index(files, code)].entries == files[first_store_index(
            files,
            code,
        )].entries.remove(first_code_index(files[first_store_index(files, code)].entries, code)),
        forall|j: int|
            0 <= j < files.len() && j != first_store_index(files, code) ==> (#[trigger] after[j])
                == files[j],
    ensures
        !chain_has_code(after, code),
{
    let si = first_store_index(files, code);
    let s = files[si].entries;
    lemma_first_store_index(files, code);
    lemma_first_code_index(s, code);
    let ci = first_code_index(s, code);
    assert forall|j: int| 0 <= j < after.len() implies !has_code(
        (#[trigger] after[j]).entries,
        code,
    ) by {
        if j != si {
            assert(after[j] == files[j]);
            if has_code(files[j].entries, code) {
                assert(j == si);
            }
        } else {
            let t = after[si].entries;
            assert(t == s.remove(ci));
            if has_code(t, code) {
                let k = choose|k: int| 0 <= k < t.len() && (#[trigger] t[k]).code == code;
                if k < ci {
                    assert(t[k] == s[k]);
                } else {
                    assert(t[k] == s[k + 1]);
                    assert(s[k + 1].code == code && s[ci].code == code);
                }
            }
        }
    }
}

} // verus!
