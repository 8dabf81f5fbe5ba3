use vstd::prelude::*;
use crate::table::NameTable;
use crate::text::owned;

pub mod alias;
pub mod cd;
pub mod export;

verus! {

/// The commands that the shell runs itself.
#[derive(Clone, Copy, Debug, PartialEq, Eq, Structural)]
pub enum Builtin {
    Cd,
    Alias,
    Export,
}

/// The commands that the shell runs itself, by name.
pub open spec fn builtin_table() -> Map<Seq<char>, Builtin> {
    Map::<Seq<char>, Builtin>::empty().insert("cd"@, Builtin::Cd).insert("alias"@, Builtin::Alias).insert(
        "export"@,
        Builtin::Export,
    )
}

/// The builtin commands by name: `cd`, `alias` and `export`.
pub fn get_builtins() -> (res: NameTable<Builtin>)
    ensures
        res@ == builtin_table(),
        res@ == Map::<Seq<char>, Builtin>::empty().insert("cd"@, Builtin::Cd).insert("alias"@, Builtin::Alias).insert(
            "export"@,
            Builtin::Export,
        ),
{
    let mut builtins = NameTable::new();
    builtins.insert(owned("cd"), Builtin::Cd);
    builtins.insert(owned("alias"), Builtin::Alias);
    builtins.insert(owned("export"), Builtin::Export);
    builtins
}

} // verus!
