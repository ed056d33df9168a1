//! The two per-entry operations and the directory pass: classify-and-rename
//! or strip-and-rename each entry in turn, halting at the first failure.

use vstd::prelude::*;

use crate::RuntimeErrors;
use crate::paths::{
    DOT, SLASH, file_name, has_file_name, name_has_ext, name_stem, set_extension, stripped,
    with_ext,
};
use crate::sniff::{classify, inferred_ext};

verus! {

/// What one directory entry asks of the file system: nothing, or a rename
/// to a new path.
#[derive(Debug, PartialEq, Eq)]
pub enum EntryAction {
    Skip,
    Rename { to: Vec<u8> },
}

/// One directory entry handed to the pass: its path, and the leading bytes
/// of its content (consulted only when adding extensions).
#[derive(Debug, PartialEq, Eq)]
pub struct Entry {
    pub path: Vec<u8>,
    pub bytes: Vec<u8>,
}

impl View for Entry {
    type V = (Seq<u8>, Seq<u8>);

    open spec fn view(&self) -> (Seq<u8>, Seq<u8>) {
        (self.path@, self.bytes@)
    }
}

/// One rename of the pass, old path and new path.
#[derive(Debug, PartialEq, Eq, Clone)]
pub struct PlannedRename {
    pub from: Vec<u8>,
    pub to: Vec<u8>,
}

impl View for PlannedRename {
    type V = (Seq<u8>, Seq<u8>);

    open spec fn view(&self) -> (Seq<u8>, Seq<u8>) {
        (self.from@, self.to@)
    }
}

/// Whether the operation on one entry fails: it would rename, but the path
/// has no file name to rename.
pub open spec fn step_fails(strip: bool, path: Seq<u8>, bytes: Seq<u8>) -> bool {
    &&& !has_file_name(path)
    &&& (strip || inferred_ext(bytes) is Some)
}

/// Whether the operation on one entry is a no-op: in add mode, no type was
/// recognized in the bytes.
pub open spec fn step_skips(strip: bool, bytes: Seq<u8>) -> bool {
    !strip && inferred_ext(bytes) is None
}

/// Whether the operation on one entry renames it.
pub open spec fn step_renames(strip: bool, path: Seq<u8>, bytes: Seq<u8>) -> bool {
    &&& has_file_name(path)
    &&& (strip || inferred_ext(bytes) is Some)
}

/// The new path of a renamed entry: the old one with its extension removed
/// (strip mode) or replaced by the recognized type's canonical one.
pub open spec fn step_target(strip: bool, path: Seq<u8>, bytes: Seq<u8>) -> Seq<u8> {
    if strip {
        stripped(path)
    } else {
        with_ext(path, inferred_ext(bytes).unwrap())
    }
}

/// Classifies the entry's bytes and renames the path to carry the
/// recognized type's canonical extension; a path whose content no matcher
/// knows is skipped.
pub fn add_action(path: &Vec<u8>, bytes: &Vec<u8>) -> (r: Result<EntryAction, RuntimeErrors>)
    ensures
        step_skips(false, bytes@) ==> r == Ok::<EntryAction, RuntimeErrors>(EntryAction::Skip),
        step_renames(false, path@, bytes@) ==> (r matches Ok(a) && a matches EntryAction::Rename {
            to,
        } && to@ == step_target(false, path@, bytes@)),
        step_fails(false, path@, bytes@) ==> r == Err::<EntryAction, RuntimeErrors>(
            RuntimeErrors::UnableToSetExtension,
        ),
{
    match classify(bytes) {
        None => Ok(EntryAction::Skip),
        Some(ext) => match set_extension(path, &ext) {
            Ok(q) => Ok(EntryAction::Rename { to: q }),
            Err(e) => Err(e),
        },
    }
}

/// Renames the path so its file name loses its extension; a file name that
/// already has none is renamed to itself.
pub fn strip_action(path: &Vec<u8>) -> (r: Result<EntryAction, RuntimeErrors>)
    ensures
        has_file_name(path@) ==> (r matches Ok(a) && a matches EntryAction::Rename { to } && to@
            == stripped(path@)),
        !has_file_name(path@) ==> r == Err::<EntryAction, RuntimeErrors>(
            RuntimeErrors::UnableToSetExtension,
        ),
{
    let none: Vec<u8> = Vec::new();
    match set_extension(path, &none) {
        Ok(q) => Ok(EntryAction::Rename { to: q }),
        Err(e) => Err(e),
    }
}

/// The operation one run applies to each entry, selected by the mode flag.
pub fn entry_action(strip: bool, path: &Vec<u8>, bytes: &Vec<u8>) -> (r: Result<
    EntryAction,
    RuntimeErrors,
>)
    ensures
        step_skips(strip, bytes@) ==> r == Ok::<EntryAction, RuntimeErrors>(EntryAction::Skip),
        step_renames(strip, path@, bytes@) ==> (r matches Ok(a) && a matches EntryAction::Rename {
            to,
        } && to@ == step_target(strip, path@, bytes@)),
        step_fails(strip, path@, bytes@) ==> r == Err::<EntryAction, RuntimeErrors>(
            RuntimeErrors::UnableToSetExtension,
        ),
{
    if strip {
        strip_action(path)
    } else {
        add_action(path, bytes)
    }
}

/// The outcome of a whole directory pass, as a mathematical value: the
/// renames performed in order, the paths skipped in order, and the index of
/// the entry whose operation failed, if any did.
pub struct PassModel {
    pub renames: Seq<(Seq<u8>, Seq<u8>)>,
    pub skips: Seq<Seq<u8>>,
    pub fail_at: Option<int>,
}

/// What a fail-fast pass over `entries` does: each entry in turn is renamed
/// or skipped, and the first failing entry ends the pass with everything
/// after it untouched.
pub open spec fn pass_model(strip: bool, entries: Seq<(Seq<u8>, Seq<u8>)>) -> PassModel
    decreases entries.len(),
{
    if entries.len() == 0 {
        PassModel { renames: Seq::empty(), skips: Seq::empty(), fail_at: None }
    } else {
        let prev = pass_model(strip, entries.drop_last());
        let path = entries.last().0;
        let bytes = entries.last().1;
        if prev.fail_at is Some {
            prev
        } else if step_fails(strip, path, bytes) {
            PassModel { renames: prev.renames, skips: prev.skips, fail_at: Some(entries.len() - 1) }
        } else if step_skips(strip, bytes) {
            PassModel { renames: prev.renames, skips: prev.skips.push(path), fail_at: None }
        } else {
            PassModel {
                renames: prev.renames.push((path, step_target(strip, path, bytes))),
                skips: prev.skips,
                fail_at: None,
            }
        }
    }
}

/// Once an entry of a prefix has failed, the rest of the sequence changes
/// nothing: the pass stops there.
pub proof fn lemma_pass_stops(strip: bool, entries: Seq<(Seq<u8>, Seq<u8>)>, k: int)
    requires
        0 <= k <= entries.len(),
        pass_model(strip, entries.take(k)).fail_at is Some,
    ensures
        pass_model(strip, entries) == pass_model(strip, entries.take(k)),
    decreases entries.len() - k,
{
    if k == entries.len() {
        assert(entries.take(k) =~= entries);
    } else {
        assert(entries.drop_last().take(k) =~= entries.take(k));
        lemma_pass_stops(strip, entries.drop_last(), k);
    }
}

/// A pass over entries none of whose operations fails reaches the end.
pub proof fn lemma_pass_no_failure(strip: bool, entries: Seq<(Seq<u8>, Seq<u8>)>)
    requires
        forall|i: int| 0 <= i < entries.len() ==> !step_fails(
            strip,
            (#[trigger] entries[i]).0,
            entries[i].1,
        ),
    ensures
        pass_model(strip, entries).fail_at is None,
    decreases entries.len(),
{
    if entries.len() > 0 {
        assert(forall|i: int| 0 <= i < entries.drop_last().len() ==> entries.drop_last()[i]
            == entries[i]);
        lemma_pass_no_failure(strip, entries.drop_last());
    }
}

/// In add mode, when every entry's bytes carry a recognized type and every
/// path has a file name, the pass renames every entry, in order, to its
/// path with the recognized type's canonical extension, and skips nothing.
pub proof fn lemma_add_all_recognized(entries: Seq<(Seq<u8>, Seq<u8>)>)
    requires
        forall|i: int| 0 <= i < entries.len() ==> inferred_ext((#[trigger] entries[i]).1) is Some,
        forall|i: int| 0 <= i < entries.len() ==> has_file_name((#[trigger] entries[i]).0),
    ensures
        pass_model(false, entries).fail_at is None,
        pass_model(false, entries).skips.len() == 0,
        pass_model(false, entries).renames.len() == entries.len(),
        forall|i: int| 0 <= i < entries.len() ==> (#[trigger] pass_model(
            false,
            entries,
        ).renames[i]) == (entries[i].0, with_ext(entries[i].0, inferred_ext(entries[i].1).unwrap())),
    decreases entries.len(),
{
    if entries.len() > 0 {
        assert(forall|i: int| 0 <= i < entries.drop_last().len() ==> entries.drop_last()[i]
            == entries[i]);
        lemma_add_all_recognized(entries.drop_last());
    }
}

/// In add mode, when no entry's bytes carry a recognized type, the pass
/// renames nothing and reports every path skipped, in order.
pub proof fn lemma_add_all_unrecognized(entries: Seq<(Seq<u8>, Seq<u8>)>)
    requires
        forall|i: int| 0 <= i < entries.len() ==> inferred_ext((#[trigger] entries[i]).1) is None,
    ensures
        pass_model(false, entries).fail_at is None,
        pass_model(false, entries).renames.len() == 0,
        pass_model(false, entries).skips == entries.map_values(|en: (Seq<u8>, Seq<u8>)| en.0),
    decreases entries.len(),
{
    if entries.len() == 0 {
        assert(pass_model(false, entries).skips =~= entries.map_values(
            |en: (Seq<u8>, Seq<u8>)| en.0,
        ));
    } else {
        assert(forall|i: int| 0 <= i < entries.drop_last().len() ==> entries.drop_last()[i]
            == entries[i]);
        lemma_add_all_unrecognized(entries.drop_last());
        assert(pass_model(false, entries).skips =~= entries.map_values(
            |en: (Seq<u8>, Seq<u8>)| en.0,
        ));
    }
}

/// In strip mode, when every path has a file name, the pass renames every
/// entry, in order, to its path with the extension removed, and skips
/// nothing.
pub proof fn lemma_strip_all(entries: Seq<(Seq<u8>, Seq<u8>)>)
    requires
        forall|i: int| 0 <= i < entries.len() ==> has_file_name((#[trigger] entries[i]).0),
    ensures
        pass_model(true, entries).fail_at is None,
        pass_model(true, entries).skips.len() == 0,
        pass_model(true, entries).renames.len() == entries.len(),
        forall|i: int| 0 <= i < entries.len() ==> (#[trigger] pass_model(
            true,
            entries,
        ).renames[i]) == (entries[i].0, stripped(entries[i].0)),
    decreases entries.len(),
{
    if entries.len() > 0 {
        assert(forall|i: int| 0 <= i < entries.drop_last().len() ==> entries.drop_last()[i]
            == entries[i]);
        lemma_strip_all(entries.drop_last());
    }
}

/// Strip mode is idempotent directory-wide: after a pass that renamed every
/// entry, a second pass over the renamed entries renames each to the name
/// it already has, whenever no stem still carries an extension of its own
/// and every stem is a real file name.
pub proof fn lemma_strip_pass_idempotent(
    entries: Seq<(Seq<u8>, Seq<u8>)>,
    again: Seq<(Seq<u8>, Seq<u8>)>,
)
    requires
        again.len() == entries.len(),
        forall|i: int| 0 <= i < again.len() ==> (#[trigger] again[i]).0 == stripped(
            entries[i].0,
        ),
        forall|i: int| 0 <= i < entries.len() ==> has_file_name((#[trigger] entries[i]).0),
        forall|i: int| 0 <= i < entries.len() ==> !name_has_ext(
            name_stem(file_name((#[trigger] entries[i]).0)),
        ),
        forall|i: int| 0 <= i < entries.len() ==> name_stem(
            file_name((#[trigger] entries[i]).0),
        ) != seq![DOT],
        forall|i: int| 0 <= i < entries.len() ==> name_stem(
            file_name((#[trigger] entries[i]).0),
        ) != seq![DOT, DOT],
    ensures
        pass_model(true, again).fail_at is None,
        pass_model(true, again).skips.len() == 0,
        pass_model(true, again).renames.len() == entries.len(),
        forall|i: int| 0 <= i < again.len() ==> (#[trigger] pass_model(true, again).renames[i]) == (
            again[i].0,
            again[i].0,
        ),
{
    assert forall|i: int| 0 <= i < again.len() implies has_file_name((#[trigger] again[i]).0)
        && stripped(again[i].0) == again[i].0 by {
        crate::paths::lemma_strip_idempotent(entries[i].0);
    }
    lemma_strip_all(again);
}

/// Fail-fast: when the first entry whose operation fails stands at index
/// `k`, the pass performs exactly what the entries before `k` ask for, ends
/// at `k`, and touches nothing after `k`.
pub proof fn lemma_fail_fast(strip: bool, entries: Seq<(Seq<u8>, Seq<u8>)>, k: int)
    requires
        0 <= k < entries.len(),
        forall|i: int| 0 <= i < k ==> !step_fails(strip, (#[trigger] entries[i]).0, entries[i].1),
        step_fails(strip, entries[k].0, entries[k].1),
    ensures
        pass_model(strip, entries).fail_at == Some(k),
        pass_model(strip, entries).renames == pass_model(strip, entries.take(k)).renames,
        pass_model(strip, entries).skips == pass_model(strip, entries.take(k)).skips,
{
    assert(forall|i: int| 0 <= i < k ==> entries.take(k)[i] == entries[i]);
    lemma_pass_no_failure(strip, entries.take(k));
    assert(entries.take(k + 1).drop_last() =~= entries.take(k));
    assert(entries.take(k + 1).last() == entries[k]);
    assert(pass_model(strip, entries.take(k + 1)).fail_at == Some(k));
    lemma_pass_stops(strip, entries, k + 1);
}

/// Add mode is idempotent entry by entry: a second run over the renamed
/// path, with the file's bytes unchanged, renames it to the name it already
/// has, whenever the canonical extension is a plain token free of slashes
/// and dots.
pub proof fn lemma_add_idempotent(path: Seq<u8>, bytes: Seq<u8>)
    requires
        has_file_name(path),
        inferred_ext(bytes) is Some,
        inferred_ext(bytes).unwrap().len() > 0,
        forall|j: int| 0 <= j < inferred_ext(bytes).unwrap().len() ==> inferred_ext(
            bytes,
        ).unwrap()[j] != SLASH,
        forall|j: int| 0 <= j < inferred_ext(bytes).unwrap().len() ==> inferred_ext(
            bytes,
        ).unwrap()[j] != DOT,
    ensures
        step_renames(false, step_target(false, path, bytes), bytes),
        step_target(false, step_target(false, path, bytes), bytes) == step_target(
            false,
            path,
            bytes,
        ),
{
    crate::paths::lemma_with_ext_idempotent(path, inferred_ext(bytes).unwrap());
}

/// Add mode is idempotent directory-wide: after a pass that renamed every
/// recognized entry, a second pass over the renamed entries, with each
/// file's bytes unchanged, infers the same types and renames each entry to
/// the name it already has, whenever every canonical extension is a plain
/// token free of slashes and dots.
pub proof fn lemma_add_pass_idempotent(
    entries: Seq<(Seq<u8>, Seq<u8>)>,
    again: Seq<(Seq<u8>, Seq<u8>)>,
)
    requires
        again.len() == entries.len(),
        forall|i: int| 0 <= i < again.len() ==> (#[trigger] again[i]).1 == entries[i].1,
        forall|i: int| 0 <= i < again.len() ==> (#[trigger] again[i]).0 == step_target(
            false,
            entries[i].0,
            entries[i].1,
        ),
        forall|i: int| 0 <= i < entries.len() ==> has_file_name((#[trigger] entries[i]).0),
        forall|i: int| 0 <= i < entries.len() ==> inferred_ext((#[trigger] entries[i]).1) is Some,
        forall|i: int| 0 <= i < entries.len() ==> inferred_ext(
            (#[trigger] entries[i]).1,
        ).unwrap().len() > 0,
        forall|i: int, j: int|
            0 <= i < entries.len() && 0 <= j < inferred_ext(entries[i].1).unwrap().len()
                ==> #[trigger] inferred_ext(entries[i].1).unwrap()[j] != SLASH,
        forall|i: int, j: int|
            0 <= i < entries.len() && 0 <= j < inferred_ext(entries[i].1).unwrap().len()
                ==> #[trigger] inferred_ext(entries[i].1).unwrap()[j] != DOT,
    ensures
        pass_model(false, again).fail_at is None,
        pass_model(false, again).skips.len() == 0,
        pass_model(false, again).renames.len() == entries.len(),
        forall|i: int| 0 <= i < again.len() ==> (#[trigger] pass_model(
            false,
            again,
        ).renames[i]) == (again[i].0, again[i].0),
{
    assert forall|i: int| 0 <= i < again.len() implies has_file_name((#[trigger] again[i]).0)
        && inferred_ext(again[i].1) is Some && with_ext(
        again[i].0,
        inferred_ext(again[i].1).unwrap(),
    ) == again[i].0 by {
        lemma_add_idempotent(entries[i].0, entries[i].1);
    }
    lemma_add_all_recognized(again);
}

/// The report of one directory pass: the renames performed in order, the
/// paths skipped in order, and the index of the failing entry, if one
/// failed.
#[derive(Debug, PartialEq, Eq)]
pub struct PassReport {
    pub renames: Vec<PlannedRename>,
    pub skips: Vec<Vec<u8>>,
    pub failed: Option<usize>,
}

/// Runs one fail-fast pass over the entries of a directory, given each
/// entry's path and content bytes, and reports exactly what `pass_model`
/// says of them.
pub fn plan_directory(strip: bool, entries: &Vec<Entry>) -> (r: PassReport)
    ensures
        ({
            let m = pass_model(strip, entries@.map_values(|en: Entry| en@));
            &&& r.renames@.map_values(|pr: PlannedRename| pr@) == m.renames
            &&& r.skips@.map_values(|s: Vec<u8>| s@) == m.skips
            &&& match (r.failed, m.fail_at) {
                (Some(i), Some(j)) => i == j,
                (None, None) => true,
                _ => false,
            }
        }),
{
    let ghost ents = entries@.map_values(|en: Entry| en@);
    let mut renames: Vec<PlannedRename> = Vec::new();
    let mut skips: Vec<Vec<u8>> = Vec::new();
    let mut i: usize = 0;
    proof {
        assert(ents.take(0) =~= Seq::<(Seq<u8>, Seq<u8>)>::empty());
        assert(renames@.map_values(|pr: PlannedRename| pr@) =~= pass_model(
            strip,
            ents.take(0),
        ).renames);
        assert(skips@.map_values(|s: Vec<u8>| s@) =~= pass_model(strip, ents.take(0)).skips);
    }
    while i < entries.len()
        invariant
            i <= entries.len(),
            ents == entries@.map_values(|en: Entry| en@),
            renames@.map_values(|pr: PlannedRename| pr@) == pass_model(strip, ents.take(
                i as int,
            )).renames,
            skips@.map_values(|s: Vec<u8>| s@) == pass_model(strip, ents.take(i as int)).skips,
            pass_model(strip, ents.take(i as int)).fail_at is None,
        decreases entries.len() - i,
    {
        let entry = &entries[i];
        proof {
            assert(ents.take(i + 1).drop_last() =~= ents.take(i as int));
            assert(ents.take(i + 1).last() == ents[i as int]);
            assert(ents[i as int] == entries@[i as int]@);
        }
        match entry_action(strip, &entry.path, &entry.bytes) {
            Err(_) => {
                proof {
                    assert(step_fails(strip, entry.path@, entry.bytes@));
                    assert(pass_model(strip, ents.take(i + 1)).fail_at == Some(i as int));
                    lemma_pass_stops(strip, ents, i + 1);
                }
                return PassReport { renames, skips, failed: Some(i) };
            },
            Ok(EntryAction::Skip) => {
                proof {
                    assert(step_skips(strip, entry.bytes@));
                }
                skips.push(entry.path.clone());
                proof {
                    assert(skips@.map_values(|s: Vec<u8>| s@) =~= pass_model(strip, ents.take(
                        i + 1,
                    )).skips);
                }
            },
            Ok(EntryAction::Rename { to }) => {
                proof {
                    assert(step_renames(strip, entry.path@, entry.bytes@));
                }
                renames.push(PlannedRename { from: entry.path.clone(), to });
                proof {
                    assert(renames@.map_values(|pr: PlannedRename| pr@) =~= pass_model(
                        strip,
                        ents.take(i + 1),
                    ).renames);
                }
            },
        }
        i = i + 1;
    }
    proof {
        assert(ents.take(i as int) =~= ents);
    }
    PassReport { renames, skips, failed: None }
}

} // verus!
