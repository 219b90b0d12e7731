//! The two files the control plane reads, both TOML: the master's
//! configuration (`slaves = [ "<path>", ... ]`) and the service files of a
//! slave (`Name` and `ExecStart`, other keys ignored).

use vstd::prelude::*;
use crate::master::MasterConfiguration;
use crate::slave::Unit;

verus! {

/// The string that the top-level key `key` holds in the TOML document `doc`,
/// as the toml crate reads it; `None` when `doc` is not TOML or the key holds
/// no string.
pub uninterp spec fn toml_string(doc: Seq<char>, key: Seq<char>) -> Option<Seq<char>>;

/// The strings of the array that the top-level key `key` holds in the TOML
/// document `doc`, as the toml crate reads it; `None` when `doc` is not TOML
/// or the key holds anything but an array of strings.
pub uninterp spec fn toml_strings(doc: Seq<char>, key: Seq<char>) -> Option<Seq<Seq<char>>>;

/// Relies on toml::from_str into a toml::Table, Table::get and
/// Value::as_str: the string at a top-level key. Parsing depends on the
/// document alone.
#[verifier::external_body]
fn toml_string_at(doc: &str, key: &str) -> (r: Option<String>)
    ensures
        match r {
            Some(s) => toml_string(doc@, key@) == Some(s@),
            None => toml_string(doc@, key@) is None,
        },
{
    toml::from_str::<toml::Table>(doc).ok()?.get(key)?.as_str().map(|s| s.to_string())
}

/// Relies on toml::from_str into a toml::Table, Table::get,
/// Value::as_array and Value::as_str: the strings of the array at a
/// top-level key. Parsing depends on the document alone.
#[verifier::external_body]
fn toml_strings_at(doc: &str, key: &str) -> (r: Option<Vec<String>>)
    ensures
        match r {
            Some(v) => toml_strings(doc@, key@) == Some(v@.map_values(|s: String| s@)),
            None => toml_strings(doc@, key@) is None,
        },
{
    let table = toml::from_str::<toml::Table>(doc).ok()?;
    table.get(key)?.as_array()?.iter().map(|v| v.as_str().map(|s| s.to_string())).collect()
}

pub open spec fn key_slaves() -> Seq<char> {
    seq!['s', 'l', 'a', 'v', 'e', 's']
}

pub open spec fn key_name() -> Seq<char> {
    seq!['N', 'a', 'm', 'e']
}

pub open spec fn key_exec_start() -> Seq<char> {
    seq!['E', 'x', 'e', 'c', 'S', 't', 'a', 'r', 't']
}

/// Reads the master's configuration: the array of strings under `slaves`.
pub fn parse_master_config(text: &str) -> (r: Option<MasterConfiguration>)
    ensures
        match r {
            Some(c) => toml_strings(text@, key_slaves()) == Some(
                c.slaves@.map_values(|s: String| s@),
            ),
            None => toml_strings(text@, key_slaves()) is None,
        },
{
    let key = "slaves";
    proof {
        reveal_strlit("slaves");
        assert(key@ =~= key_slaves());
    }
    match toml_strings_at(text, key) {
        Some(slaves) => Some(MasterConfiguration { slaves }),
        None => None,
    }
}

/// Reads a service file: a unit needs a string under `Name` and one under
/// `ExecStart`. The unit comes back unregistered.
pub fn parse_unit(text: &str) -> (r: Option<Unit>)
    ensures
        match r {
            Some(u) => toml_string(text@, key_name()) == Some(u.name@) && toml_string(
                text@,
                key_exec_start(),
            ) == Some(u.exec_start@) && u.uuid@ == seq![0u8; 16],
            None => toml_string(text@, key_name()) is None || toml_string(
                text@,
                key_exec_start(),
            ) is None,
        },
{
    let name_key = "Name";
    let exec_key = "ExecStart";
    proof {
        reveal_strlit("Name");
        reveal_strlit("ExecStart");
        assert(name_key@ =~= key_name());
        assert(exec_key@ =~= key_exec_start());
    }
    match (toml_string_at(text, name_key), toml_string_at(text, exec_key)) {
        (Some(name), Some(exec_start)) => Some(Unit::new(name, exec_start)),
        _ => None,
    }
}

} // verus!
