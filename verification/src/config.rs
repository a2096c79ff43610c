//! The settings of the client, and the command line option that names their file.
use crate::text::push_str;
use vstd::prelude::*;

verus! {

/// The name of the client's settings file when the command line names none.
pub const DEFAULT_CONFIG: &'static str = "efg.toml";

/// Where the example settings are written when the settings file is missing.
pub const EXAMPLE_CONFIG: &'static str = "efg.example.toml";

/// A user allowed to use the SOCKS proxy.
#[derive(Debug)]
pub struct UserPass {
    pub user: String,
    pub pass: String,
}

/// The settings file of the client.
#[derive(Debug)]
pub struct ConfigToml {
    pub proxy: String,
    pub script_ids: Vec<(String, String)>,
    pub alzahra: Vec<String>,
    pub users: Vec<UserPass>,
}

impl ConfigToml {
    /// The example settings written out when the file is missing.
    pub fn def() -> (r: ConfigToml)
        ensures
            r.alzahra@.len() == 1,
            r.alzahra@[0]@ == "http://94.183.183.223:9920"@,
            r.proxy@ == "127.0.0.1:6007"@,
            r.script_ids@.len() == 1,
            r.script_ids@[0].0@ == "your google script ids"@,
            r.script_ids@[0].1@ == "this scripts auth token"@,
            r.users@.len() == 1,
            r.users@[0].user@ == "user"@,
            r.users@[0].pass@ == "pass"@,
    {
        let mut alzahra = Vec::new();
        alzahra.push("http://94.183.183.223:9920".to_owned());
        let mut script_ids = Vec::new();
        script_ids.push(("your google script ids".to_owned(), "this scripts auth token".to_owned()));
        let mut users = Vec::new();
        users.push(UserPass { user: "user".to_owned(), pass: "pass".to_owned() });
        ConfigToml { alzahra, proxy: "127.0.0.1:6007".to_owned(), script_ids, users }
    }
}

/// The index of the first `-c` or `--config` among `args`.
pub open spec fn config_flag(args: Seq<Seq<char>>) -> Option<int>
    decreases args.len(),
{
    if args.len() == 0 {
        None
    } else if args[0] == "-c"@ || args[0] == "--config"@ {
        Some(0)
    } else {
        match config_flag(args.drop_first()) {
            Some(i) => Some(i + 1),
            None => None,
        }
    }
}

/// The settings file named on the command line `args`: the argument after the first `-c` or
/// `--config`, or `default` when there is none or nothing follows it.
pub open spec fn spec_config_path(args: Seq<Seq<char>>, default: Seq<char>) -> Seq<char> {
    match config_flag(args) {
        Some(i) => if i + 1 < args.len() {
            args[i + 1]
        } else {
            default
        },
        None => default,
    }
}

fn str_eq(a: &str, b: &str) -> (r: bool)
    ensures
        r == (a@ == b@),
{
    let n = a.unicode_len();
    if n != b.unicode_len() {
        return false;
    }
    for i in 0..n
        invariant
            n == a@.len() == b@.len(),
            forall|j: int| 0 <= j < i ==> a@[j] == b@[j],
    {
        if a.get_char(i) != b.get_char(i) {
            return false;
        }
    }
    assert(a@ =~= b@);
    true
}

/// The settings file named on the command line `args`.
pub fn config_path(args: &Vec<String>, default: &str) -> (r: String)
    ensures
        r@ == spec_config_path(args@.map_values(|a: String| a@), default@),
{
    let ghost views = args@.map_values(|a: String| a@);
    let n = args.len();
    assert(views.skip(0) =~= views);
    let mut i: usize = 0;
    while i < n
        invariant
            n == args@.len(),
            views == args@.map_values(|a: String| a@),
            i <= n,
            config_flag(views) == match config_flag(views.skip(i as int)) {
                Some(j) => Some(j + i),
                None => None::<int>,
            },
        decreases n - i,
    {
        assert(views.skip(i as int).drop_first() =~= views.skip(i + 1));
        assert(views.skip(i as int)[0] == args@[i as int]@);
        let a = args[i].as_str();
        if str_eq(a, "-c") || str_eq(a, "--config") {
            let mut s = String::new();
            if i + 1 < n {
                push_str(&mut s, args[i + 1].as_str());
            } else {
                push_str(&mut s, default);
            }
            return s;
        }
        i = i + 1;
    }
    let mut s = String::new();
    push_str(&mut s, default);
    s
}

} // verus!
