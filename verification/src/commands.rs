//! A tool's whole command tree, as an eagerly loaded catalogue.

use vstd::prelude::*;

verus! {

pub struct Tool {
    pub id: String,
    pub name: String,
    pub bin: Vec<String>,
    pub path_separator: String,
    pub description: String,
    pub flags: Vec<Flag>,
    pub args: Vec<Arg>,
    pub commands: Vec<Command>,
}

pub struct Command {
    pub id: String,
    pub name: String,
    pub description: String,
    pub flags: Vec<Flag>,
    pub args: Vec<Arg>,
    pub subcommands: Vec<Command>,
}

pub enum FlagKind {
    Boolean,
    Value { arg_name: String, default: String, choices: Vec<String> },
}

pub struct Flag {
    pub name: String,
    pub short: Option<char>,
    pub long: Option<String>,
    pub description: String,
    pub required: bool,
    pub kind: FlagKind,
}

pub struct Arg {
    pub name: String,
    pub description: String,
    pub required: bool,
    pub default: String,
    pub choices: Vec<String>,
}

} // verus!
