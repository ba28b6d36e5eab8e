//! Where the host looks for what it was not told.
//!
//! Whether a file is there is for the caller to find out; what follows from it is
//! decided here.
use vstd::prelude::*;

use crate::codec::optional;
use crate::text::{same, trim, trimmed};

verus! {

/// A path, either beside the executable or as it stands.
pub struct Place {
    pub beside_exe: bool,
    pub path: String,
}

/// What such a place holds.
pub struct PlaceView {
    pub beside_exe: bool,
    pub path: Seq<char>,
}

impl View for Place {
    type V = PlaceView;

    open spec fn view(&self) -> PlaceView {
        PlaceView { beside_exe: self.beside_exe, path: self.path@ }
    }
}

/// What the places of a list hold.
pub open spec fn places(list: Seq<Place>) -> Seq<PlaceView> {
    list.map_values(|place: Place| place@)
}

/// A path as it stands.
pub open spec fn here(path: Seq<char>) -> PlaceView {
    PlaceView { beside_exe: false, path }
}

/// A path beside the executable.
pub open spec fn beside(path: Seq<char>) -> PlaceView {
    PlaceView { beside_exe: true, path }
}

/// Where the agent may be: next to the executable when installed, or in the
/// working tree when run from a checkout.
pub open spec fn agent_places() -> Seq<PlaceView> {
    seq![beside("agent"@), here("../coderpack/agent/src"@), here("agent/src"@)]
}

/// Where the jars may be. `.` always exists, so it cannot be a default.
pub open spec fn dist_places() -> Seq<PlaceView> {
    seq![beside(""@), here("dist"@), here("."@)]
}

/// The first place that is marked, or another one if none is.
pub open spec fn first_marked(
    list: Seq<PlaceView>,
    marked: Seq<bool>,
    otherwise: PlaceView,
) -> PlaceView
    decreases list.len(),
{
    if list.len() == 0 || marked.len() == 0 {
        otherwise
    } else if marked[0] {
        list[0]
    } else {
        first_marked(list.drop_first(), marked.drop_first(), otherwise)
    }
}

fn at(path: &str) -> (place: Place)
    ensures
        place@ == here(path@),
{
    Place { beside_exe: false, path: path.to_owned() }
}

fn at_exe(path: &str) -> (place: Place)
    ensures
        place@ == beside(path@),
{
    Place { beside_exe: true, path: path.to_owned() }
}

fn choose_place(list: Vec<Place>, marked: &Vec<bool>, otherwise: Place) -> (place: Place)
    ensures
        place@ == first_marked(places(list@), marked@, otherwise@),
{
    let ghost all = places(list@);
    let ghost marks = marked@;
    assert(all.skip(0) == all);
    assert(marks.skip(0) == marks);
    let mut i: usize = 0;
    for place in it: list
        invariant
            it.seq() == list@,
            it.index() == i,
            i <= marked@.len(),
            all == places(list@),
            marks == marked@,
            first_marked(all.skip(i as int), marks.skip(i as int), otherwise@) == first_marked(
                all,
                marks,
                otherwise@,
            ),
    {
        let ghost rest = all.skip(i as int);
        assert(rest[0] == place@);
        if i == marked.len() {
            return otherwise;
        }
        if marked[i] {
            return place;
        }
        assert(rest.drop_first() == all.skip(i + 1));
        assert(marks.skip(i as int).drop_first() == marks.skip(i + 1));
        i = i + 1;
    }
    otherwise
}

/// Where the agent may be.
pub fn agent_candidates() -> (list: Vec<Place>)
    ensures
        places(list@) == agent_places(),
{
    let list = vec![at_exe("agent"), at("../coderpack/agent/src"), at("agent/src")];
    assert(places(list@) == agent_places());
    list
}

/// Where the jars may be.
pub fn dist_candidates() -> (list: Vec<Place>)
    ensures
        places(list@) == dist_places(),
{
    let list = vec![at_exe(""), at("dist"), at(".")];
    assert(places(list@) == dist_places());
    list
}

/// Where the agent is, given which of the candidates hold the generated address
/// table, the one file that is always there.
pub fn default_agent(marked: &Vec<bool>) -> (place: Place)
    ensures
        place@ == first_marked(agent_places(), marked@, here("agent"@)),
{
    choose_place(agent_candidates(), marked, at("agent"))
}

/// Where the jars are, given which of the candidates hold the loader jar.
pub fn default_dist(marked: &Vec<bool>) -> (place: Place)
    ensures
        place@ == first_marked(dist_places(), marked@, here("dist"@)),
{
    choose_place(dist_candidates(), marked, at("dist"))
}

/// Where the mods are, seen from the jars. Mods belong to the game, not to
/// Coderpack: with the loader installed in a folder of the game, they live one
/// level up.
pub fn default_mods(beside_game: bool) -> (path: &'static str)
    ensures
        path@ == (if beside_game {
            "../mods"@
        } else {
            "mods"@
        }),
{
    if beside_game {
        "../mods"
    } else {
        "mods"
    }
}

/// Whether a path is meant relative to the executable: unless it is there from
/// the working directory, or is absolute.
pub fn beside_exe(present: bool, absolute: bool) -> (yes: bool)
    ensures
        yes == (!present && !absolute),
{
    !present && !absolute
}

/// The Java that starts Coderpack.
pub enum Java {
    /// The one that was unpacked beside the executable.
    Beside,
    /// The one in this home directory.
    Home(String),
    /// Whichever is on the path.
    OnPath,
}

/// Which Java starts Coderpack where the command line does not say: the one
/// beside the executable if there is one, then that of `JAVA_HOME`, then the one
/// on the path.
pub fn java_path(beside: bool, home: Option<&str>) -> (java: Java)
    ensures
        match java {
            Java::Beside => beside,
            Java::Home(path) => !beside && optional(home) == Some(path@) && path@.len() > 0,
            Java::OnPath => !beside && (home is None || optional(home)->0.len() == 0),
        },
{
    if beside {
        return Java::Beside;
    }
    match home {
        Some(path) => {
            let held = path.to_owned();
            proof {
                reveal_strlit("");
                assert(path@.len() == 0 ==> path@ =~= ""@);
            }
            if same(path, "") {
                Java::OnPath
            } else {
                Java::Home(held)
            }
        },
        None => Java::OnPath,
    }
}

/// Where the classes of Coderpack are, as the JVM takes it.
pub fn classpath(api: &str, zygote: &str) -> (path: String)
    ensures
        path@ == api@ + ";"@ + zygote@,
{
    let mut path = api.to_owned();
    path.append(";");
    path.append(zygote);
    path
}

/// The one version a player sees, given what the version file holds. It is
/// missing only when the host is run straight out of a checkout.
pub fn version(text: Option<&str>) -> (shown: String)
    ensures
        shown@ == (match text {
            Some(t) => trimmed(t@),
            None => "dev"@,
        }),
{
    match text {
        Some(t) => trim(t),
        None => "dev".to_owned(),
    }
}

} // verus!
