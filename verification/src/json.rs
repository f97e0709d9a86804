//! Parameters loaded from JSON text.

use crate::session::{all_known, apply_params, reads, with_params};
use crate::sim::Sim;
use vstd::prelude::*;
use vstd::string::*;

verus! {

/// What `serde_json` reads in a text that spells an object, in the order in which
/// it lists the names: each name, whether it stands for `true` or `false`, and
/// the text of the number that it stands for. Nothing if the text is no JSON, or
/// spells no object.
pub uninterp spec fn json_entries(text: Seq<char>) -> Option<Seq<(Seq<char>, Option<bool>, Option<Seq<char>>)>>;

/// What a text says, if there is one.
pub open spec fn text_read(text: Option<String>) -> Option<Seq<char>> {
    match text {
        Some(s) => Some(s@),
        None => None,
    }
}

/// What an entry says.
pub open spec fn entry_read(entry: (String, Option<bool>, Option<String>)) -> (Seq<char>, Option<bool>, Option<Seq<char>>) {
    (entry.0@, entry.1, text_read(entry.2))
}

/// What entries say.
pub open spec fn entries_read(
    found: Option<Vec<(String, Option<bool>, Option<String>)>>,
) -> Option<Seq<(Seq<char>, Option<bool>, Option<Seq<char>>)>> {
    match found {
        Some(v) => Some(v@.map_values(|e: (String, Option<bool>, Option<String>)| entry_read(e))),
        None => None,
    }
}

/// Reads a JSON object with `serde_json::from_str`. Whether there is one, the
/// names in it, and which of them stand for a flag or for a number and for which
/// one, depend on the text alone.
#[verifier::external_body]
fn read_object(text: &str) -> (r: Option<Vec<(String, Option<bool>, Option<String>)>>)
    ensures
        entries_read(r) == json_entries(text@),
{
    let value: serde_json::Value = serde_json::from_str(text).ok()?;
    let object = value.as_object()?;
    Some(object.iter().map(|(k, v)| (k.clone(), v.as_bool(), v.as_number().map(|n| n.to_string()))).collect())
}

/// `value` is what `number` may make of the text `digits`.
pub open spec fn number_read<R, F: Fn(&String) -> Option<R>>(number: F, digits: Seq<char>, value: Option<R>) -> bool {
    exists|text: String| text@ == digits && #[trigger] number.ensures((&text,), value)
}

/// `value` is what an entry gives its parameter: the number that it stands for.
/// The parameter that is a flag counts as zero or one.
pub open spec fn value_read<R, F: Fn(&String) -> Option<R>>(
    number: F,
    found: (Seq<char>, Option<bool>, Option<Seq<char>>),
    value: Option<R>,
) -> bool {
    match (found.1, found.2) {
        (Some(flag), _) if found.0 == "periodic"@ => number_read(
            number,
            if flag {
                "1"@
            } else {
                "0"@
            },
            value,
        ),
        (_, Some(digits)) => number_read(number, digits, value),
        (_, None) => value is None,
    }
}

/// `entries` are what is found in a text, each with its value.
pub open spec fn values_read<R, F: Fn(&String) -> Option<R>>(
    number: F,
    found: Seq<(Seq<char>, Option<bool>, Option<Seq<char>>)>,
    entries: Seq<(String, Option<R>)>,
) -> bool {
    &&& entries.len() == found.len()
    &&& forall|i: int|
        0 <= i < found.len() ==> (#[trigger] entries[i]).0@ == found[i].0 && value_read(number, found[i], entries[i].1)
}

/// Loads the parameters found in a text, of which `number` reads the numbers.
/// Says whether all of them are known and have a number. If not, nothing is
/// loaded.
pub fn load_entries<R: Copy, F: Fn(&String) -> Option<R>>(
    sim: &mut Sim<R>,
    found: &Vec<(String, Option<bool>, Option<String>)>,
    number: &F,
) -> (ok: bool)
    requires
        forall|text: &String| #[trigger] number.requires((text,)),
    ensures
        exists|entries: Seq<(String, Option<R>)>| #[trigger]
            values_read(*number, entries_read(Some(*found))->Some_0, entries) && ok == all_known(entries) && *final(sim)
                == with_params(*old(sim), entries),
        old(sim).wf() ==> final(sim).wf(),
{
    let ghost said = entries_read(Some(*found))->Some_0;
    let mut entries: Vec<(String, Option<R>)> = Vec::new();
    let mut i: usize = 0;
    while i < found.len()
        invariant
            i <= found@.len(),
            said == entries_read(Some(*found))->Some_0,
            forall|text: &String| #[trigger] number.requires((text,)),
            entries@.len() == i,
            forall|k: int|
                0 <= k < i ==> (#[trigger] entries@[k]).0@ == said[k].0 && value_read(*number, said[k], entries@[k].1),
        decreases found@.len() - i,
    {
        assert(said[i as int] == entry_read(found@[i as int]));
        let value = match (found[i].1, &found[i].2) {
            (Some(flag), _) if reads(&found[i].0, "periodic") => {
                let text = if flag { String::from_str("1") } else { String::from_str("0") };
                let value = number(&text);
                assert(number.ensures((&text,), value));
                value
            },
            (_, Some(digits)) => {
                let value = number(digits);
                assert(number.ensures((digits,), value));
                value
            },
            (_, None) => None,
        };
        assert(value_read(*number, said[i as int], value));
        entries.push((found[i].0.clone(), value));
        i = i + 1;
    }
    assert(values_read(*number, said, entries@));
    apply_params(sim, &entries)
}

/// Loads parameters from a JSON object that names them, of which `number` reads
/// the numbers. Says whether the text spells an object, and all names in it are
/// known and have a number. If not, nothing is loaded.
pub fn load_params<R: Copy, F: Fn(&String) -> Option<R>>(sim: &mut Sim<R>, text: &str, number: &F) -> (ok: bool)
    requires
        forall|text: &String| #[trigger] number.requires((text,)),
    ensures
        match json_entries(text@) {
            None => !ok && *final(sim) == *old(sim),
            Some(found) => exists|entries: Seq<(String, Option<R>)>| #[trigger]
                values_read(*number, found, entries) && ok == all_known(entries) && *final(sim) == with_params(
                    *old(sim),
                    entries,
                ),
        },
        old(sim).wf() ==> final(sim).wf(),
{
    match read_object(text) {
        Some(found) => load_entries(sim, &found, number),
        None => false,
    }
}

/// A flag counts as one where it holds and as zero where it does not, a number as
/// itself, and anything else as no number.
pub proof fn law_flags_count_as_zero_or_one<R, F: Fn(&String) -> Option<R>>(
    number: F,
    name: Seq<char>,
    flag: Option<bool>,
    digits: Option<Seq<char>>,
    value: Option<R>,
)
    requires
        value_read(number, (name, flag, digits), value),
        flag is None || digits is None,
    ensures
        name == "periodic"@ && flag == Some(true) ==> number_read(number, "1"@, value),
        name == "periodic"@ && flag == Some(false) ==> number_read(number, "0"@, value),
        flag is None && digits is Some ==> number_read(number, digits->Some_0, value),
        digits is None && (flag is None || name != "periodic"@) ==> value is None,
{
}

} // verus!
