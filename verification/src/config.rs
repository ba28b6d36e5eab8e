//! What the host is told on its command line, and where it looks by default.
use vstd::prelude::*;

use crate::text::{given, same, split, split_text, texts};

verus! {

/// What the command line says. A path that it does not give is looked for.
pub struct Config {
    pub agent: Option<String>,
    pub dist: Option<String>,
    pub mods: Option<String>,
    pub java: Option<String>,
    pub skip: Vec<String>,
    pub only: Vec<String>,
    pub ask: bool,
    pub no_hook: Vec<String>,
    pub trace: bool,
    /// Mod ids the launcher ticked. None means every jar in the folder.
    pub enable: Option<String>,
    /// Print the hook sites and exit.
    pub hooks: bool,
}

/// What such a configuration holds.
pub struct ConfigView {
    pub agent: Option<Seq<char>>,
    pub dist: Option<Seq<char>>,
    pub mods: Option<Seq<char>>,
    pub java: Option<Seq<char>>,
    pub skip: Seq<Seq<char>>,
    pub only: Seq<Seq<char>>,
    pub ask: bool,
    pub no_hook: Seq<Seq<char>>,
    pub trace: bool,
    pub enable: Option<Seq<char>>,
    pub hooks: bool,
}

impl View for Config {
    type V = ConfigView;

    open spec fn view(&self) -> ConfigView {
        ConfigView {
            agent: given(self.agent),
            dist: given(self.dist),
            mods: given(self.mods),
            java: given(self.java),
            skip: texts(self.skip@),
            only: texts(self.only@),
            ask: self.ask,
            no_hook: texts(self.no_hook@),
            trace: self.trace,
            enable: given(self.enable),
            hooks: self.hooks,
        }
    }
}

/// What holds where the command line says nothing.
pub open spec fn unconfigured() -> ConfigView {
    ConfigView {
        agent: None,
        dist: None,
        mods: None,
        java: None,
        skip: seq![],
        only: seq![],
        ask: true,
        no_hook: seq![],
        trace: false,
        enable: None,
        hooks: false,
    }
}

/// What an argument that stands alone changes, if it is one.
pub open spec fn switched(config: ConfigView, argument: Seq<char>) -> Option<ConfigView> {
    if argument == "--trace"@ {
        Some(ConfigView { trace: true, ..config })
    } else if argument == "--no-ask"@ {
        Some(ConfigView { ask: false, ..config })
    } else if argument == "--hooks"@ {
        Some(ConfigView { hooks: true, ..config })
    } else {
        None
    }
}

/// What an argument with a value changes, if it is one. A list is separated by
/// commas.
pub open spec fn assigned(config: ConfigView, argument: Seq<char>, value: Seq<char>) -> Option<
    ConfigView,
> {
    if argument == "--agent"@ {
        Some(ConfigView { agent: Some(value), ..config })
    } else if argument == "--dist"@ {
        Some(ConfigView { dist: Some(value), ..config })
    } else if argument == "--mods"@ {
        Some(ConfigView { mods: Some(value), ..config })
    } else if argument == "--enable"@ {
        Some(ConfigView { enable: Some(value), ..config })
    } else if argument == "--java"@ {
        Some(ConfigView { java: Some(value), ..config })
    } else if argument == "--skip"@ {
        Some(ConfigView { skip: split(value, ','), ..config })
    } else if argument == "--only"@ {
        Some(ConfigView { only: split(value, ','), ..config })
    } else if argument == "--no-hook"@ {
        Some(ConfigView { no_hook: split(value, ','), ..config })
    } else {
        None
    }
}

/// What the arguments say, on top of what is configured already, or the text of
/// the error. An argument that needs a value and is the last one gets an empty
/// value. A later argument overrides an earlier one.
pub open spec fn configured(config: ConfigView, args: Seq<Seq<char>>) -> Result<
    ConfigView,
    Seq<char>,
>
    decreases args.len(),
{
    if args.len() == 0 {
        Ok(config)
    } else {
        match switched(config, args[0]) {
            Some(more) => configured(more, args.skip(1)),
            None => {
                let value = if args.len() > 1 {
                    args[1]
                } else {
                    seq![]
                };
                match assigned(config, args[0], value) {
                    Some(more) => if args.len() > 1 {
                        configured(more, args.skip(2))
                    } else {
                        Ok(more)
                    },
                    None => Err("Unknown argument: "@ + args[0]),
                }
            },
        }
    }
}

impl Config {
    fn switch(&mut self, argument: &str) -> (known: bool)
        ensures
            match switched(old(self)@, argument@) {
                Some(config) => known && final(self)@ == config,
                None => !known && final(self)@ == old(self)@,
            },
    {
        if same(argument, "--trace") {
            self.trace = true;
        } else if same(argument, "--no-ask") {
            self.ask = false;
        } else if same(argument, "--hooks") {
            self.hooks = true;
        } else {
            return false;
        }
        true
    }

    fn assign(&mut self, argument: &str, value: String) -> (known: bool)
        ensures
            match assigned(old(self)@, argument@, value@) {
                Some(config) => known && final(self)@ == config,
                None => !known && final(self)@ == old(self)@,
            },
    {
        if same(argument, "--agent") {
            self.agent = Some(value);
        } else if same(argument, "--dist") {
            self.dist = Some(value);
        } else if same(argument, "--mods") {
            self.mods = Some(value);
        } else if same(argument, "--enable") {
            self.enable = Some(value);
        } else if same(argument, "--java") {
            self.java = Some(value);
        } else if same(argument, "--skip") {
            self.skip = split_text(&value, ',');
        } else if same(argument, "--only") {
            self.only = split_text(&value, ',');
        } else if same(argument, "--no-hook") {
            self.no_hook = split_text(&value, ',');
        } else {
            return false;
        }
        true
    }

    /// Reads the arguments. One that is not known stops the host with an error.
    pub fn from_args(args: &Vec<String>) -> (result: Result<Config, String>)
        ensures
            match (result, configured(unconfigured(), texts(args@))) {
                (Ok(config), Ok(expected)) => config@ == expected,
                (Err(error), Err(expected)) => error@ == expected,
                _ => false,
            },
    {
        let ghost all = texts(args@);
        let mut config = Config {
            agent: None,
            dist: None,
            mods: None,
            java: None,
            skip: Vec::new(),
            only: Vec::new(),
            ask: true,
            no_hook: Vec::new(),
            trace: false,
            enable: None,
            hooks: false,
        };
        proof {
            assert(config@.skip == Seq::<Seq<char>>::empty());
            assert(config@.only == Seq::<Seq<char>>::empty());
            assert(config@.no_hook == Seq::<Seq<char>>::empty());
            assert(config@ == unconfigured());
            assert(all.skip(0) == all);
        }
        let mut i: usize = 0;
        while i < args.len()
            invariant
                i <= args@.len(),
                all == texts(args@),
                configured(config@, all.skip(i as int)) == configured(unconfigured(), all),
            decreases args@.len() - i,
        {
            let ghost rest = all.skip(i as int);
            assert(rest[0] == args@[i as int]@);
            if config.switch(&args[i]) {
                assert(rest.skip(1) == all.skip(i + 1));
                i = i + 1;
            } else {
                let last = i == args.len() - 1;
                let value = if last {
                    String::new()
                } else {
                    args[i + 1].clone()
                };
                proof {
                    if !last {
                        assert(rest[1] == args@[i + 1]@);
                    } else {
                        assert(value@ == Seq::<char>::empty());
                    }
                }
                if !config.assign(&args[i], value) {
                    let mut error = "Unknown argument: ".to_owned();
                    error.append(&args[i]);
                    return Err(error);
                }
                if last {
                    return Ok(config);
                }
                assert(rest.skip(2) == all.skip(i + 2));
                i = i + 2;
            }
        }
        assert(all.skip(i as int).len() == 0);
        Ok(config)
    }
}

/// Whether an argument stands alone.
pub open spec fn is_switch(argument: Seq<char>) -> bool {
    switched(unconfigured(), argument) is Some
}

/// Whether an argument takes a value.
pub open spec fn takes_value(argument: Seq<char>) -> bool {
    assigned(unconfigured(), argument, seq![]) is Some
}

/// Whether no argument is left without its value at the end.
pub open spec fn complete(args: Seq<Seq<char>>) -> bool
    decreases args.len(),
{
    if args.len() == 0 {
        true
    } else if is_switch(args[0]) {
        complete(args.skip(1))
    } else {
        args.len() > 1 && complete(args.skip(2))
    }
}

/// Arguments add up: what the first of them configure is what the others start
/// from, so that a later one overrides an earlier one and an error ends it all.
pub proof fn law_arguments_add_up(config: ConfigView, a: Seq<Seq<char>>, b: Seq<Seq<char>>)
    requires
        complete(a),
    ensures
        configured(config, a + b) == (match configured(config, a) {
            Ok(more) => configured(more, b),
            Err(error) => Err(error),
        }),
    decreases a.len(),
{
    let all = a + b;
    if a.len() == 0 {
        assert(all == b);
    } else {
        assert(all[0] == a[0]);
        match switched(config, a[0]) {
            Some(more) => {
                assert(is_switch(a[0]));
                assert(all.skip(1) == a.skip(1) + b);
                law_arguments_add_up(more, a.skip(1), b);
            },
            None => {
                assert(!is_switch(a[0]));
                assert(all[1] == a[1]);
                assert(all.skip(2) == a.skip(2) + b);
                match assigned(config, a[0], a[1]) {
                    Some(more) => {
                        law_arguments_add_up(more, a.skip(2), b);
                    },
                    None => {},
                }
            },
        }
    }
}

/// An unknown argument stops the host with an error that names it, wherever it
/// stands.
pub proof fn law_unknown_argument_stops(
    config: ConfigView,
    ahead: Seq<Seq<char>>,
    argument: Seq<char>,
    rest: Seq<Seq<char>>,
)
    requires
        complete(ahead),
        configured(config, ahead) is Ok,
        !is_switch(argument),
        !takes_value(argument),
    ensures
        configured(config, ahead + seq![argument] + rest) == Err::<ConfigView, Seq<char>>(
            "Unknown argument: "@ + argument,
        ),
{
    let others = seq![argument] + rest;
    law_arguments_add_up(config, ahead, others);
    assert(ahead + seq![argument] + rest == ahead + others);
    assert(others[0] == argument);
}

} // verus!
