//! Checking shaders before they are shipped.

use crate::wgsl::{is_plain, plain};
use naga::Module;
use naga::back::spv::{Options, WriterFlags};
use naga::valid::{Capabilities, ModuleInfo, ValidationFlags, Validator};
use vstd::prelude::*;

verus! {

#[verifier::external_type_specification]
#[verifier::external_body]
pub struct ExModule(naga::Module);

#[verifier::external_type_specification]
#[verifier::external_body]
pub struct ExModuleInfo(naga::valid::ModuleInfo);

/// The module that `naga` reads in the WGSL text, or what it says is wrong with
/// the grammar of it.
pub uninterp spec fn wgsl_module(text: Seq<char>) -> Result<naga::Module, Seq<char>>;

/// What `naga` finds out about a module that is valid, or what it says is not
/// valid.
pub uninterp spec fn module_info(module: naga::Module) -> Result<naga::valid::ModuleInfo, Seq<char>>;

/// The names of the entry points of a module, in order.
pub uninterp spec fn module_entry_points(module: naga::Module) -> Seq<Seq<char>>;

/// What `naga` says stands against lowering a valid module to SPIR-V, if it
/// cannot lower it.
pub uninterp spec fn lowering_failure(module: naga::Module, info: naga::valid::ModuleInfo) -> Option<Seq<char>>;

/// What there is, or what a message says.
pub open spec fn or_said<T>(r: Result<T, String>) -> Result<T, Seq<char>> {
    match r {
        Ok(v) => Ok(v),
        Err(m) => Err(m@),
    }
}

/// What a message says, if there is one.
pub open spec fn said(message: Option<String>) -> Option<Seq<char>> {
    match message {
        Some(m) => Some(m@),
        None => None,
    }
}

/// A module was read in a plain text.
pub open spec fn is_from_plain(module: naga::Module) -> bool {
    exists|text: Seq<char>| #[trigger] is_plain(text) && wgsl_module(text) == Ok::<naga::Module, Seq<char>>(module)
}

/// Parses WGSL with `naga::front::wgsl::parse_str`. The module, or that there is
/// none and the message, depend on the text alone. A plain text is asked for:
/// the parser descends once for each block, bracket, operator, branch and
/// declaration that another waits for, which takes stack, adds up and multiplies
/// the sizes of types as they are, and cuts a byte off the end of what it quotes
/// in one of its messages.
#[verifier::external_body]
fn parse(text: &str) -> (r: Result<Module, String>)
    requires
        is_plain(text@),
    ensures
        or_said(r) == wgsl_module(text@),
{
    naga::front::wgsl::parse_str(text).map_err(|e| e.emit_to_string(text))
}

/// Checks a module with `naga::valid::Validator::validate`, all checks on and no
/// optional capabilities. What it finds out, or that it fails and the message,
/// depend on the module alone. The module has to come of a plain text, since the
/// sizes of its types are multiplied as they are.
#[verifier::external_body]
fn validate(module: &Module) -> (r: Result<ModuleInfo, String>)
    requires
        is_from_plain(*module),
    ensures
        or_said(r) == module_info(*module),
{
    let mut validator = Validator::new(ValidationFlags::all(), Capabilities::empty());
    validator.validate(module).map_err(|e| format!("{e:?}"))
}

/// Reads off the names in `naga::Module::entry_points`.
#[verifier::external_body]
fn entry_points(module: &Module) -> (names: Vec<String>)
    ensures
        texts(names@) == module_entry_points(*module),
{
    module.entry_points.iter().map(|e| e.name.clone()).collect()
}

/// Lowers a module with `naga::back::spv::write_vec`, no writer flags set.
/// Whether that fails, and the message, depend on the module and on what was
/// found out about it alone. What was found out has to be about that module: the
/// writer leaves open what becomes of operands of other types than the validator
/// lets pass.
#[verifier::external_body]
fn lower(module: &Module, info: &ModuleInfo) -> (r: Option<String>)
    requires
        is_from_plain(*module),
        module_info(*module) == Ok::<ModuleInfo, Seq<char>>(*info),
    ensures
        said(r) == lowering_failure(*module, *info),
{
    let mut options = Options::default();
    options.flags = WriterFlags::empty();
    naga::back::spv::write_vec(module, info, &options, None).err().map(|e| format!("{e}"))
}

/// What texts say.
pub open spec fn texts(names: Seq<String>) -> Seq<Seq<char>> {
    names.map_values(|s: String| s@)
}

/// What is wrong with a shader.
#[derive(Debug)]
pub enum ShaderError {
    /// It is longer or more intricate than is read.
    Intricate,
    /// It cannot be parsed.
    Parse(String),
    /// It is not valid.
    Invalid(String),
    /// It has an entry point that is not expected.
    Unexpected(String),
    /// It lacks an entry point.
    Missing(String),
    /// It cannot be lowered.
    Lowering(String),
}

/// Whether `name` is among `names`.
fn is_among(name: &String, names: &Vec<String>) -> (r: bool)
    ensures
        r == texts(names@).contains(name@),
{
    let mut i: usize = 0;
    while i < names.len()
        invariant
            i <= names@.len(),
            forall|k: int| 0 <= k < i ==> #[trigger] texts(names@)[k] != name@,
        decreases names@.len() - i,
    {
        if names[i] == *name {
            assert(texts(names@)[i as int] == name@);
            return true;
        }
        i = i + 1;
    }
    false
}

/// The first of `names` that is not among `others`.
pub open spec fn first_outside(names: Seq<Seq<char>>, others: Seq<Seq<char>>, i: int) -> bool {
    &&& 0 <= i < names.len()
    &&& !others.contains(names[i])
    &&& forall|k: int| 0 <= k < i ==> others.contains(#[trigger] names[k])
}

/// The place of the first of `names` that is not among `others`.
fn find_outside(names: &Vec<String>, others: &Vec<String>) -> (r: Option<usize>)
    ensures
        match r {
            Some(i) => first_outside(texts(names@), texts(others@), i as int),
            None => forall|k: int| 0 <= k < names@.len() ==> texts(others@).contains(#[trigger] texts(names@)[k]),
        },
{
    let mut i: usize = 0;
    while i < names.len()
        invariant
            i <= names@.len(),
            forall|k: int| 0 <= k < i ==> texts(others@).contains(#[trigger] texts(names@)[k]),
        decreases names@.len() - i,
    {
        if !is_among(&names[i], others) {
            return Some(i);
        }
        i = i + 1;
    }
    None
}

/// What the entry points that a shader has come to, where `wanted` are expected:
/// the first that is not expected, or else the first that is missing.
pub open spec fn entries_checked(found: Seq<Seq<char>>, wanted: Seq<Seq<char>>, r: Result<(), ShaderError>) -> bool {
    match r {
        Err(ShaderError::Unexpected(name)) => exists|i: int| #[trigger] first_outside(found, wanted, i) && name@ == found[i],
        Err(ShaderError::Missing(name)) => {
            &&& forall|k: int| 0 <= k < found.len() ==> wanted.contains(#[trigger] found[k])
            &&& exists|i: int| #[trigger] first_outside(wanted, found, i) && name@ == wanted[i]
        },
        Err(_) => false,
        Ok(_) => {
            &&& forall|k: int| 0 <= k < found.len() ==> wanted.contains(#[trigger] found[k])
            &&& forall|k: int| 0 <= k < wanted.len() ==> found.contains(#[trigger] wanted[k])
        },
    }
}

/// Checks the entry points of a shader against those expected.
pub fn check_entry_points(found: &Vec<String>, wanted: &Vec<String>) -> (r: Result<(), ShaderError>)
    ensures
        entries_checked(texts(found@), texts(wanted@), r),
{
    match find_outside(found, wanted) {
        Some(i) => Err(ShaderError::Unexpected(found[i].clone())),
        None => match find_outside(wanted, found) {
            Some(i) => Err(ShaderError::Missing(wanted[i].clone())),
            None => Ok(()),
        },
    }
}

/// What a shader comes to: it has to be plain, be parsed, be valid, have the
/// entry points that are `wanted` and be lowered, in that order.
pub open spec fn shader_checked(text: Seq<char>, wanted: Seq<Seq<char>>, r: Result<(), ShaderError>) -> bool {
    if !is_plain(text) {
        r matches Err(ShaderError::Intricate)
    } else {
        match wgsl_module(text) {
            Err(message) => r matches Err(ShaderError::Parse(m)) && m@ == message,
            Ok(module) => match module_info(module) {
                Err(message) => r matches Err(ShaderError::Invalid(m)) && m@ == message,
                Ok(info) => exists|e: Result<(), ShaderError>| #[trigger]
                    entries_checked(module_entry_points(module), wanted, e) && if e is Err {
                        r == e
                    } else {
                        match lowering_failure(module, info) {
                            Some(message) => r matches Err(ShaderError::Lowering(m)) && m@ == message,
                            None => r is Ok,
                        }
                    },
            },
        }
    }
}

/// Checks one shader.
pub fn check_shader(text: &str, wanted: &Vec<String>) -> (r: Result<(), ShaderError>)
    ensures
        shader_checked(text@, texts(wanted@), r),
{
    if !plain(text) {
        return Err(ShaderError::Intricate);
    }
    let module = match parse(text) {
        Ok(module) => module,
        Err(message) => {
            return Err(ShaderError::Parse(message));
        },
    };
    assert(is_plain(text@) && wgsl_module(text@) == Ok::<Module, Seq<char>>(module));
    let info = match validate(&module) {
        Ok(info) => info,
        Err(message) => {
            return Err(ShaderError::Invalid(message));
        },
    };
    let found = entry_points(&module);
    let entries = check_entry_points(&found, wanted);
    assert(entries_checked(module_entry_points(module), texts(wanted@), entries));
    if entries.is_err() {
        return entries;
    }
    match lower(&module, &info) {
        Some(message) => Err(ShaderError::Lowering(message)),
        None => Ok(()),
    }
}

/// A shader passes if and only if it has the entry points that are expected, and no
/// others. One that does not is told an entry point that the two differ in.
pub proof fn law_entry_points_are_those_expected(found: Vec<String>, wanted: Vec<String>, r: Result<(), ShaderError>)
    requires
        call_ensures(check_entry_points, (&found, &wanted), r),
    ensures
        r is Ok <==> forall|name: Seq<char>| #[trigger] texts(found@).contains(name) <==> #[trigger] texts(wanted@).contains(name),
        r matches Err(ShaderError::Unexpected(name)) ==> texts(found@).contains(name@) && !texts(wanted@).contains(name@),
        r matches Err(ShaderError::Missing(name)) ==> texts(wanted@).contains(name@) && !texts(found@).contains(name@),
        r is Err ==> r->Err_0 is Unexpected || r->Err_0 is Missing,
{
    let (a, b) = (texts(found@), texts(wanted@));
    match r {
        Ok(_) => {
            assert forall|name: Seq<char>| #[trigger] a.contains(name) <==> #[trigger] b.contains(name) by {
                if a.contains(name) {
                    let k = choose|k: int| 0 <= k < a.len() && a[k] == name;
                    assert(b.contains(a[k]));
                }
                if b.contains(name) {
                    let k = choose|k: int| 0 <= k < b.len() && b[k] == name;
                    assert(a.contains(b[k]));
                }
            }
        },
        Err(ShaderError::Unexpected(name)) => {
            let i = choose|i: int| #[trigger] first_outside(a, b, i) && name@ == a[i];
            assert(a.contains(a[i]) && !b.contains(a[i]));
        },
        Err(ShaderError::Missing(name)) => {
            let i = choose|i: int| #[trigger] first_outside(b, a, i) && name@ == b[i];
            assert(b.contains(b[i]) && !a.contains(b[i]));
        },
        Err(_) => {},
    }
}

/// A plain text passes as a shader if and only if it can be parsed, is valid, has
/// every entry point that is expected and no other, and can be lowered.
pub proof fn law_shaders_pass_all_checks_or_fail(text: &str, wanted: Vec<String>, r: Result<(), ShaderError>)
    requires
        call_ensures(check_shader, (text, &wanted), r),
        is_plain(text@),
    ensures
        r is Ok <==> {
            &&& wgsl_module(text@) is Ok
            &&& module_info(wgsl_module(text@)->Ok_0) is Ok
            &&& lowering_failure(wgsl_module(text@)->Ok_0, module_info(wgsl_module(text@)->Ok_0)->Ok_0) is None
            &&& forall|k: int|
                0 <= k < wanted@.len() ==> module_entry_points(wgsl_module(text@)->Ok_0).contains(
                    #[trigger] texts(wanted@)[k],
                )
            &&& forall|k: int|
                0 <= k < module_entry_points(wgsl_module(text@)->Ok_0).len() ==> texts(wanted@).contains(
                    #[trigger] module_entry_points(wgsl_module(text@)->Ok_0)[k],
                )
        },
{
    if wgsl_module(text@) is Ok && module_info(wgsl_module(text@)->Ok_0) is Ok {
        let (module, info) = (wgsl_module(text@)->Ok_0, module_info(wgsl_module(text@)->Ok_0)->Ok_0);
        let (found, names) = (module_entry_points(module), texts(wanted@));
        let e = choose|e: Result<(), ShaderError>| #[trigger]
            entries_checked(found, names, e) && if e is Err {
                r == e
            } else {
                match lowering_failure(module, info) {
                    Some(message) => r matches Err(ShaderError::Lowering(m)) && m@ == message,
                    None => r is Ok,
                }
            };
        match e {
            Err(ShaderError::Unexpected(name)) => {
                let i = choose|i: int| #[trigger] first_outside(found, names, i) && name@ == found[i];
                assert(!names.contains(found[i]));
            },
            Err(ShaderError::Missing(name)) => {
                let i = choose|i: int| #[trigger] first_outside(names, found, i) && name@ == names[i];
                assert(!found.contains(names[i]));
            },
            _ => {},
        }
    }
}

} // verus!
