//! Command-level operations: routing of the raw argument list, the
//! chain-wide collision and not-found policies of the mutating actions,
//! dispatch resolution, and the listing.

use vstd::prelude::*;

use crate::chain::{chain_codes, chain_found_entry, chain_has_code, first_store_index, NemFiles};
use crate::codegen::{is_generated_code, mnemonic};
use crate::entry::{Entry, EntryView};
use crate::store::first_code_index;
use crate::store::NemFileView;
use crate::text::{join_spaces, join_words, push_char, split_cmd, split_spaces};

verus! {

/// The failures an action can report. Decode and write failures belong to
/// the file boundary, outside this library.
#[derive(Debug)]
pub enum NemError {
    /// Wrong arity for the requested action.
    Argument,
    /// An edit would relabel to a code that already resolves: the colliding
    /// code and the command it already names.
    Collision { code: String, cmd: String },
    /// The code to edit or remove is nowhere in the chain.
    NotFound { code: String },
    /// No configuration file anywhere in the ancestry: nothing to create in.
    EmptyChain,
}

/// What one invocation asks for, after routing.
pub enum Action {
    /// Register the command made of the words, under a generated code.
    Create(Vec<String>),
    /// Relabel the first code with the second.
    Edit(String, String),
    /// Remove the entry carrying the code.
    Remove(String),
    /// Print every entry of every store.
    List,
    /// Resolve the code and run its command with the forwarded arguments.
    Dispatch(String, Vec<String>),
}

/// The arguments from `start` on, as their own vector.
fn tail_from(args: &Vec<String>, start: usize) -> (r: Vec<String>)
    requires
        start as int <= args@.len(),
    ensures
        r.deep_view() == args.deep_view().skip(start as int),
{
    let n = args.len();
    let mut r: Vec<String> = Vec::new();
    let mut i: usize = start;
    while i < n
        invariant
            start <= i <= n,
            n == args@.len(),
            r@.len() == i - start,
            forall|j: int| 0 <= j < i - start ==> (#[trigger] r@[j])@ == args.deep_view()[start + j],
        decreases n - i,
    {
        r.push(args[i].clone());
        i = i + 1;
    }
    proof {
        assert(r.deep_view() =~= args.deep_view().skip(start as int));
    }
    r
}

/// Routes the raw argument list (program name first) to an action. With no
/// action word the listing is the default; an unrecognised action word is a
/// code to dispatch.
pub fn parse_args(args: &Vec<String>) -> (r: Result<Action, NemError>)
    ensures
        ({
            let a = args.deep_view();
            if a.len() < 2 {
                r matches Ok(Action::List)
            } else if a[1] == "/cc"@ {
                if a.len() < 3 {
                    r matches Err(NemError::Argument)
                } else {
                    r matches Ok(Action::Create(ws)) && ws.deep_view() == a.skip(2)
                }
            } else if a[1] == "/ce"@ {
                if a.len() != 4 {
                    r matches Err(NemError::Argument)
                } else {
                    r matches Ok(Action::Edit(oc, nc)) && oc@ == a[2] && nc@ == a[3]
                }
            } else if a[1] == "/cl"@ {
                r matches Ok(Action::List)
            } else if a[1] == "/cr"@ {
                if a.len() != 3 {
                    r matches Err(NemError::Argument)
                } else {
                    r matches Ok(Action::Remove(c)) && c@ == a[2]
                }
            } else {
                r matches Ok(Action::Dispatch(c, fwd)) && c@ == a[1] && fwd.deep_view() == a.skip(
                    2,
                )
            }
        }),
{
    let n = args.len();
    if n < 2 {
        return Ok(Action::List);
    }
    proof {
        assert(args.deep_view()[1] == args@[1]@);
    }
    if args[1] == String::from_str("/cc") {
        if n < 3 {
            return Err(NemError::Argument);
        }
        Ok(Action::Create(tail_from(args, 2)))
    } else if args[1] == String::from_str("/ce") {
        if n != 4 {
            return Err(NemError::Argument);
        }
        Ok(Action::Edit(args[2].clone(), args[3].clone()))
    } else if args[1] == String::from_str("/cl") {
        Ok(Action::List)
    } else if args[1] == String::from_str("/cr") {
        if n != 3 {
            return Err(NemError::Argument);
        }
        Ok(Action::Remove(args[2].clone()))
    } else {
        Ok(Action::Dispatch(args[1].clone(), tail_from(args, 2)))
    }
}

/// Registers the command made of `words` in the nearest store, under a
/// freshly generated code, and returns that code. Refuses an empty chain
/// (no configuration file was found anywhere) and an empty word list.
pub fn run_create(chain: &mut NemFiles, words: &Vec<String>) -> (r: Result<String, NemError>)
    ensures
        ({
            let files = old(chain)@;
            if files.len() == 0 {
                &&& r matches Err(e) && e is EmptyChain
                &&& *final(chain) == *old(chain)
            } else if words@.len() == 0 {
                &&& r matches Err(e) && e is Argument
                &&& *final(chain) == *old(chain)
            } else {
                &&& r matches Ok(code) && is_generated_code(
                    words.deep_view(),
                    chain_codes(files),
                    code@,
                ) && final(chain)@[0].entries == files[0].entries.push(
                    EntryView {
                        cmd: join_spaces(words.deep_view()),
                        code: code@,
                        desc: Seq::<char>::empty(),
                    },
                )
                &&& final(chain)@.len() == files.len()
                &&& final(chain)@[0].version == files[0].version
                &&& final(chain)@[0].file_name == files[0].file_name
                &&& forall|j: int| 1 <= j < files.len() ==> final(chain)@[j] == files[j]
            }
        }),
{
    if chain.nem_files.len() == 0 {
        return Err(NemError::EmptyChain);
    }
    if words.len() == 0 {
        return Err(NemError::Argument);
    }
    let existing = chain.codes();
    let ws = words.as_slice();
    let code = mnemonic(ws, &existing);
    proof {
        assert(ws.deep_view() =~= words.deep_view());
    }
    let cmd = join_words(words);
    let out = code.clone();
    let entry = Entry { cmd, code, desc: String::new() };
    chain.add_entry(entry);
    Ok(out)
}

/// Relabels `old_code` with `new_code`, refusing the edit when `new_code`
/// already resolves anywhere in the chain (collision) and when `old_code`
/// resolves nowhere (not found). On success returns the changed entry.
pub fn run_edit(chain: &mut NemFiles, old_code: &String, new_code: &String) -> (r: Result<
    Entry,
    NemError,
>)
    ensures
        ({
            let files = old(chain)@;
            if chain_has_code(files, new_code@) {
                &&& r matches Err(NemError::Collision { code, cmd }) && code@ == new_code@ && cmd@
                    == chain_found_entry(files, new_code@).cmd
                &&& *final(chain) == *old(chain)
            } else if !chain_has_code(files, old_code@) {
                &&& r matches Err(NemError::NotFound { code }) && code@ == old_code@
                &&& *final(chain) == *old(chain)
            } else {
                let si = first_store_index(files, old_code@);
                let s = files[si].entries;
                let ci = first_code_index(s, old_code@);
                let changed = EntryView { cmd: s[ci].cmd, code: new_code@, desc: s[ci].desc };
                &&& r matches Ok(e) && e@ == changed
                &&& final(chain)@.len() == files.len()
                &&& final(chain)@[si].entries == s.update(ci, changed)
                &&& final(chain)@[si].version == files[si].version
                &&& final(chain)@[si].file_name == files[si].file_name
                &&& forall|j: int| 0 <= j < files.len() && j != si ==> final(chain)@[j] == files[j]
            }
        }),
{
    let collision = match chain.find_entry_by_code(new_code) {
        Some(e) => Some(e.cmd.clone()),
        None => None,
    };
    match collision {
        Some(cmd) => Err(NemError::Collision { code: new_code.clone(), cmd }),
        None => {
            match chain.edit_code(old_code, new_code) {
                Some(e) => Ok(e),
                None => Err(NemError::NotFound { code: old_code.clone() }),
            }
        },
    }
}

/// Removes the entry `code` resolves to and returns it; not-found when no
/// store holds the code.
pub fn run_remove(chain: &mut NemFiles, code: &String) -> (r: Result<Entry, NemError>)
    ensures
        ({
            let files = old(chain)@;
            if chain_has_code(files, code@) {
                let si = first_store_index(files, code@);
                let s = files[si].entries;
                &&& r matches Ok(e) && e@ == chain_found_entry(files, code@)
                &&& final(chain)@.len() == files.len()
                &&& final(chain)@[si].entries == s.remove(first_code_index(s, code@))
                &&& final(chain)@[si].version == files[si].version
                &&& final(chain)@[si].file_name == files[si].file_name
                &&& forall|j: int| 0 <= j < files.len() && j != si ==> final(chain)@[j] == files[j]
            } else {
                &&& r matches Err(NemError::NotFound { code: c }) && c@ == code@
                &&& *final(chain) == *old(chain)
            }
        }),
{
    match chain.rm_entry(code) {
        Some(e) => Ok(e),
        None => Err(NemError::NotFound { code: code.clone() }),
    }
}

/// What the dispatcher decides to do for a code.
pub enum DispatchPlan {
    /// A hit: the full argument vector to spawn, executable name first — the
    /// entry's command split at spaces, then the forwarded arguments.
    Run(Vec<String>),
    /// A miss: degrade to the listing, not an error.
    List,
}

/// Resolves `code` against the chain. A hit yields the argument vector to
/// spawn; a miss yields the listing plan, so an unknown code produces the
/// same output as the listing action.
pub fn resolve(chain: &NemFiles, code: &String, forwarded: &Vec<String>) -> (r: DispatchPlan)
    ensures
        chain_has_code(chain@, code@) ==> (r matches DispatchPlan::Run(argv) && argv.deep_view()
            == split_spaces(chain_found_entry(chain@, code@).cmd) + forwarded.deep_view()),
        !chain_has_code(chain@, code@) ==> r is List,
{
    match chain.find_entry_by_code(code) {
        Some(e) => {
            let mut argv = split_cmd(e.cmd.as_str());
            let ghost base = argv.deep_view();
            let m = forwarded.len();
            let mut i: usize = 0;
            while i < m
                invariant
                    m == forwarded@.len(),
                    i <= m,
                    argv.deep_view() == base + forwarded.deep_view().subrange(0, i as int),
                decreases m - i,
            {
                let ghost before = argv.deep_view();
                argv.push(forwarded[i].clone());
                proof {
                    assert(argv.deep_view() =~= before.push(forwarded.deep_view()[i as int]));
                    assert(argv.deep_view() =~= base + forwarded.deep_view().subrange(0, i + 1));
                }
                i = i + 1;
            }
            proof {
                assert(forwarded.deep_view().subrange(0, m as int) =~= forwarded.deep_view());
            }
            DispatchPlan::Run(argv)
        },
        None => DispatchPlan::List,
    }
}

/// One entry as the listing prints it: a tab, the code, a tab, the command.
pub open spec fn entry_line(e: EntryView) -> Seq<char> {
    seq!['\t'] + e.code + seq!['\t'] + e.cmd
}

/// One store as the listing prints it: a header naming its file, then its
/// entries in order.
pub open spec fn file_lines(f: NemFileView) -> Seq<Seq<char>> {
    seq!["file: "@ + f.file_name] + f.entries.map_values(|e: EntryView| entry_line(e))
}

/// The whole listing, farthest store first.
pub open spec fn listing(files: Seq<NemFileView>) -> Seq<Seq<char>>
    decreases files.len(),
{
    if files.len() == 0 {
        Seq::<Seq<char>>::empty()
    } else {
        listing(files.drop_first()) + file_lines(files[0])
    }
}

/// The lines the listing action prints, farthest store first, each store's
/// entries under a header naming its file.
pub fn list_lines(chain: &NemFiles) -> (r: Vec<String>)
    ensures
        r.deep_view() == listing(chain@),
{
    let mut r: Vec<String> = Vec::new();
    let n = chain.nem_files.len();
    let mut idx: usize = n;
    proof {
        assert(chain@.skip(n as int) =~= Seq::<NemFileView>::empty());
        assert(r.deep_view() =~= listing(chain@.skip(n as int)));
    }
    while idx > 0
        invariant
            n == chain.nem_files@.len(),
            idx <= n,
            r.deep_view() == listing(chain@.skip(idx as int)),
        decreases idx,
    {
        idx = idx - 1;
        let ghost r0 = r.deep_view();
        let f = &chain.nem_files[idx];
        let mut h = String::from_str("file: ");
        h.append(f.file_name.as_str());
        r.push(h);
        let en = f.entries.len();
        let mut j: usize = 0;
        proof {
            assert(r.deep_view() =~= r0 + seq!["file: "@ + f@.file_name]);
            assert(f@.entries.subrange(0, 0).map_values(|e: EntryView| entry_line(e)) =~= Seq::<
                Seq<char>,
            >::empty());
            assert(r.deep_view() =~= r0 + seq!["file: "@ + f@.file_name] + f@.entries.subrange(
                0,
                0,
            ).map_values(|e: EntryView| entry_line(e)));
        }
        while j < en
            invariant
                en == f.entries@.len(),
                j <= en,
                r.deep_view() == r0 + seq!["file: "@ + f@.file_name] + f@.entries.subrange(
                    0,
                    j as int,
                ).map_values(|e: EntryView| entry_line(e)),
            decreases en - j,
        {
            let mut l = String::new();
            push_char(&mut l, '\t');
            l.append(f.entries[j].code.as_str());
            push_char(&mut l, '\t');
            l.append(f.entries[j].cmd.as_str());
            let ghost r_before = r.deep_view();
            proof {
                assert(l@ =~= entry_line(f@.entries[j as int]));
            }
            r.push(l);
            proof {
                assert(f@.entries.subrange(0, j + 1) =~= f@.entries.subrange(0, j as int).push(
                    f@.entries[j as int],
                ));
                assert(f@.entries.subrange(0, j + 1).map_values(|e: EntryView| entry_line(e)) =~= f@
                    .entries.subrange(0, j as int).map_values(|e: EntryView| entry_line(e)).push(
                    entry_line(f@.entries[j as int]),
                ));
                assert(r.deep_view() =~= r_before.push(entry_line(f@.entries[j as int])));
                assert(r.deep_view() =~= r0 + seq!["file: "@ + f@.file_name] + f@.entries.subrange(
                    0,
                    j + 1,
                ).map_values(|e: EntryView| entry_line(e)));
            }
            j = j + 1;
        }
        proof {
            assert(f@.entries.subrange(0, en as int) =~= f@.entries);
            assert(f@ == chain@[idx as int]);
            assert(r.deep_view() =~= r0 + file_lines(chain@[idx as int]));
            let suffix = chain@.skip(idx as int);
            assert(suffix[0] == chain@[idx as int]);
            assert(suffix.drop_first() =~= chain@.skip(idx as int + 1));
            assert(listing(suffix) == listing(suffix.drop_first()) + file_lines(suffix[0]));
            assert(r.deep_view() =~= listing(chain@.skip(idx as int)));
        }
    }
    proof {
        assert(chain@.skip(0) =~= chain@);
    }
    r
}

} // verus!
