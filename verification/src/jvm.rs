//! The command that starts Coderpack, and what is written to it.
use vstd::prelude::*;

use crate::codec::optional;

verus! {

/// One argument of the command.
pub enum Argument {
    Text(String),
    /// The path of the folder that mods are read from.
    Mods,
}

/// What such an argument holds.
pub enum ArgumentView {
    Text(Seq<char>),
    Mods,
}

impl View for Argument {
    type V = ArgumentView;

    open spec fn view(&self) -> ArgumentView {
        match *self {
            Argument::Text(t) => ArgumentView::Text(t@),
            Argument::Mods => ArgumentView::Mods,
        }
    }
}

/// What the arguments of a list hold.
pub open spec fn argument_views(list: Seq<Argument>) -> Seq<ArgumentView> {
    list.map_values(|argument: Argument| argument@)
}

/// An option with its value, if there is one.
pub open spec fn option_of(name: Seq<char>, value: Option<Seq<char>>) -> Seq<ArgumentView> {
    match value {
        Some(v) => seq![ArgumentView::Text(name), ArgumentView::Text(v)],
        None => seq![],
    }
}

/// The arguments that start Coderpack: its classes, its main class and the mods,
/// then the mods that are enabled, unless all are, and the pipe it is to connect
/// to, if there is one.
pub open spec fn arguments_of(
    classpath: Seq<char>,
    enable: Option<Seq<char>>,
    pipe: Option<Seq<char>>,
) -> Seq<ArgumentView> {
    seq![
        ArgumentView::Text("-cp"@),
        ArgumentView::Text(classpath),
        ArgumentView::Text("dev.ancaria.coderpack.zygote.Main"@),
        ArgumentView::Text("--mods"@),
        ArgumentView::Mods,
    ] + option_of("--enable"@, enable) + option_of("--pipe"@, pipe)
}

fn append_option(list: &mut Vec<Argument>, name: &str, value: Option<&str>)
    ensures
        argument_views(final(list)@) == argument_views(old(list)@) + option_of(
            name@,
            optional(value),
        ),
{
    if let Some(v) = value {
        list.push(Argument::Text(name.to_owned()));
        list.push(Argument::Text(v.to_owned()));
    }
    assert(argument_views(list@) == argument_views(old(list)@) + option_of(
        name@,
        optional(value),
    ));
}

/// The arguments that start Coderpack.
pub fn arguments(classpath: &str, enable: Option<&str>, pipe: Option<&str>) -> (list: Vec<Argument>)
    ensures
        argument_views(list@) == arguments_of(classpath@, optional(enable), optional(pipe)),
{
    let mut list: Vec<Argument> = Vec::new();
    list.push(Argument::Text("-cp".to_owned()));
    list.push(Argument::Text(classpath.to_owned()));
    list.push(Argument::Text("dev.ancaria.coderpack.zygote.Main".to_owned()));
    list.push(Argument::Text("--mods".to_owned()));
    list.push(Argument::Mods);
    assert(argument_views(list@) == seq![
        ArgumentView::Text("-cp"@),
        ArgumentView::Text(classpath@),
        ArgumentView::Text("dev.ancaria.coderpack.zygote.Main"@),
        ArgumentView::Text("--mods"@),
        ArgumentView::Mods,
    ]);
    append_option(&mut list, "--enable", enable);
    append_option(&mut list, "--pipe", pipe);
    list
}

/// A line as it goes over the wire: it leaves as one write because it was
/// assembled as one.
pub fn wire(line: &str) -> (text: String)
    ensures
        text@ == line@ + seq!['\n'],
{
    let mut text = line.to_owned();
    text.push('\n');
    assert(text@ == line@ + seq!['\n']);
    text
}

} // verus!
