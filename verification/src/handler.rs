use vstd::prelude::*;

use crate::model::{add_spec, list_spec, remove_spec, RegModel};
use crate::registry::Registry;

verus! {

/// A decoded command, as the chat dispatcher hands it over.
pub enum Command {
    Help,
    Add(String),
    Remove(String),
    List,
}

/// The static help text.
pub open spec fn help_msg() -> Seq<char> {
    "These commands are supported:\n/help - Display this text.\n/add - Add item to shopping list\n/remove - Remove item from shopping list after it's bought: /remove <item number>\n/list - List all items to be bought"@
}

pub fn help_text() -> (r: String)
    ensures
        r@ == help_msg(),
{
    String::from_str(
        "These commands are supported:\n/help - Display this text.\n/add - Add item to shopping list\n/remove - Remove item from shopping list after it's bought: /remove <item number>\n/list - List all items to be bought",
    )
}

/// What handling a command does to the registry, the reply it earns, and
/// whether the registry must be persisted again.
pub open spec fn handle_spec(m: RegModel, id: i64, cmd: Command) -> (RegModel, Seq<char>, bool) {
    match cmd {
        Command::Help => (m, help_msg(), false),
        Command::Add(raw) => add_spec(m, id, raw@),
        Command::Remove(raw) => remove_spec(m, id, raw@),
        Command::List => (m, list_spec(m, id), false),
    }
}

/// The reply to send back, and whether the registry changed and so must be
/// written to disk again.
pub struct Reply {
    pub text: String,
    pub persist: bool,
}

/// Dispatch one decoded command for conversation `id`.
pub fn handle(reg: &mut Registry, id: i64, cmd: Command) -> (r: Reply)
    requires
        old(reg).wf(),
    ensures
        final(reg).wf(),
        final(reg).model() == handle_spec(old(reg).model(), id, cmd).0,
        r.text@ == handle_spec(old(reg).model(), id, cmd).1,
        r.persist == handle_spec(old(reg).model(), id, cmd).2,
{
    match cmd {
        Command::Help => Reply { text: help_text(), persist: false },
        Command::Add(raw) => {
            let out = reg.add(id, raw.as_str());
            Reply { text: out.0, persist: out.1 }
        },
        Command::Remove(raw) => {
            let out = reg.remove(id, raw.as_str());
            Reply { text: out.0, persist: out.1 }
        },
        Command::List => Reply { text: reg.list(id), persist: false },
    }
}

} // verus!
