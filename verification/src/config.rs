//! Settings: lines of the form `name=value`, and the map of names to values
//! that is kept beside the program.

use vstd::prelude::*;
use vstd::slice::{slice_subrange, slice_to_vec};
use std::collections::HashMap;
use std::path::Path;

verus! {

/// `std::path::Path`, carried through and never read.
#[verifier::external_type_specification]
#[verifier::external_body]
pub struct ExPath(std::path::Path);

/// `std::io::Error`, named by the results and never made.
#[verifier::external_type_specification]
#[verifier::external_body]
pub struct ExIoError(std::io::Error);

/// The byte `=`, which parts a name from its value.
pub const EQUALS: u8 = 61;

/// Index of the first `=` of `line` at or after `from`, or the line's
/// length where there is none.
pub open spec fn equals_from(line: Seq<u8>, from: int) -> int
    decreases line.len() - from,
{
    if from >= line.len() {
        line.len() as int
    } else if line[from] == EQUALS {
        from
    } else {
        equals_from(line, from + 1)
    }
}

/// Name and value of a line: what stands before its first `=` and what
/// stands after it; nothing for a line without `=`.
pub open spec fn setting_of(line: Seq<u8>) -> Option<(Seq<u8>, Seq<u8>)> {
    let at = equals_from(line, 0);
    if 0 <= at < line.len() {
        Some((line.subrange(0, at), line.subrange(at + 1, line.len() as int)))
    } else {
        None
    }
}

/// The settings of the lines that hold one, in the order of the lines.
pub open spec fn settings_of(lines: Seq<Vec<u8>>) -> Seq<(Seq<u8>, Seq<u8>)>
    decreases lines.len(),
{
    if lines.len() == 0 {
        Seq::empty()
    } else {
        let earlier = settings_of(lines.drop_last());
        match setting_of(lines.last()@) {
            Some(setting) => earlier.push(setting),
            None => earlier,
        }
    }
}

/// `equals_from` finds an `=` with none between `from` and it, or reaches
/// the end of a line that has none from `from` on.
pub proof fn lemma_equals_from(line: Seq<u8>, from: int)
    requires
        0 <= from <= line.len(),
    ensures
        from <= equals_from(line, from) <= line.len(),
        equals_from(line, from) < line.len() ==> line[equals_from(line, from)] == EQUALS,
        forall|j: int| from <= j < equals_from(line, from) ==> line[j] != EQUALS,
    decreases line.len() - from,
{
    if from < line.len() && line[from] != EQUALS {
        lemma_equals_from(line, from + 1);
    }
}

/// Parts a line at its first `=` into name and value.
pub fn split_setting(line: &[u8]) -> (setting: Option<(Vec<u8>, Vec<u8>)>)
    ensures
        match setting {
            Some((name, value)) => {
                &&& setting_of(line@) == Some((name@, value@))
                &&& name@ + seq![EQUALS] + value@ == line@
                &&& !name@.contains(EQUALS)
            },
            None => setting_of(line@) is None && !line@.contains(EQUALS),
        },
{
    let len = line.len();
    let mut at: usize = 0;
    while at < len && line[at] != EQUALS
        invariant
            at <= len,
            len == line@.len(),
            equals_from(line@, 0) == equals_from(line@, at as int),
        decreases len - at,
    {
        at += 1;
    }
    proof {
        lemma_equals_from(line@, 0);
    }
    if at < len {
        let name = slice_to_vec(slice_subrange(line, 0, at));
        let value = slice_to_vec(slice_subrange(line, at + 1, len));
        proof {
            assert(name@ + seq![EQUALS] + value@ =~= line@);
        }
        Some((name, value))
    } else {
        None
    }
}

/// The settings of the lines that hold one, in the order of the lines; a
/// line without `=` is passed over.
pub fn parse_settings(lines: &Vec<Vec<u8>>) -> (settings: Vec<(Vec<u8>, Vec<u8>)>)
    ensures
        settings@.len() == settings_of(lines@).len(),
        forall|k: int|
            0 <= k < settings@.len() ==> (#[trigger] settings@[k]).0@ == settings_of(lines@)[k].0
                && settings@[k].1@ == settings_of(lines@)[k].1,
{
    let mut settings: Vec<(Vec<u8>, Vec<u8>)> = Vec::new();
    let mut i: usize = 0;
    while i < lines.len()
        invariant
            i <= lines@.len(),
            settings@.len() == settings_of(lines@.take(i as int)).len(),
            forall|k: int|
                0 <= k < settings@.len() ==> (#[trigger] settings@[k]).0@ == settings_of(
                    lines@.take(i as int),
                )[k].0 && settings@[k].1@ == settings_of(lines@.take(i as int))[k].1,
        decreases lines@.len() - i,
    {
        proof {
            assert(lines@.take(i + 1).drop_last() =~= lines@.take(i as int));
            assert(lines@.take(i + 1).last() == lines@[i as int]);
        }
        match split_setting(lines[i].as_slice()) {
            Some(setting) => {
                settings.push(setting);
            },
            None => {},
        }
        i += 1;
    }
    proof {
        assert(lines@.take(lines@.len() as int) =~= lines@);
    }
    settings
}

/// The settings kept at `path`: none are kept yet, so the map is empty.
pub fn load_config(path: &Path) -> (config: Result<HashMap<String, String>, std::io::Error>)
    ensures
        config is Ok,
        config->Ok_0@ == Map::<String, String>::empty(),
{
    Ok(HashMap::new())
}

/// Keeps the settings at `path`: none are kept yet, so nothing is written.
pub fn save_config(path: &Path) -> (saved: Result<(), std::io::Error>)
    ensures
        saved is Ok,
{
    Ok(())
}

} // verus!
