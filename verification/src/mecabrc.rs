//! The configuration file that names the dictionary directory: where it is
//! looked for, how its lines are read, and how a dictionary's path is made.

use vstd::prelude::*;
use vstd::string::StringExecFns;

verus! {

/// What the first two capture groups of the leftmost match of the regular
/// expression `pattern` in `line` hold; nothing where the pattern is no
/// regular expression, has no match in the line, or matches without one of
/// the two groups.
pub uninterp spec fn regex_groups(pattern: Seq<char>, line: Seq<char>) -> Option<
    (Seq<char>, Seq<char>),
>;

/// Matches `line` against the regular expression `pattern` and returns the
/// texts of its first two capture groups.
///
/// Compiles the pattern with `regex::Regex::new` and searches the line with
/// `regex::Regex::captures`.  What the search finds is a function of the
/// pattern and the line alone; the contract gives that function a name and
/// claims nothing else of it.
#[verifier::external_body]
fn capture_pair(pattern: &str, line: &str) -> (r: Option<(String, String)>)
    ensures
        match regex_groups(pattern@, line@) {
            Some(groups) => r matches Some(found) && found.0@ == groups.0 && found.1@ == groups.1,
            None => r is None,
        },
{
    let re = regex::Regex::new(pattern).ok()?;
    let caps = re.captures(line)?;
    Some((caps.get(1)?.as_str().to_string(), caps.get(2)?.as_str().to_string()))
}

/// The value that the last of the pairs with the key `key` gives it.
pub open spec fn lookup(pairs: Seq<(String, String)>, key: Seq<char>) -> Option<Seq<char>>
    decreases pairs.len(),
{
    if pairs.len() == 0 {
        None
    } else if pairs.last().0@ == key {
        Some(pairs.last().1@)
    } else {
        lookup(pairs.drop_last(), key)
    }
}

/// The settings of a configuration file.  A key that is set again takes the
/// later value.
pub struct RcMap {
    pub pairs: Vec<(String, String)>,
}

impl RcMap {
    /// The value of `key`, if it is set.
    pub open spec fn value(&self, key: Seq<char>) -> Option<Seq<char>> {
        lookup(self.pairs@, key)
    }

    /// No settings.
    pub fn new() -> (m: RcMap)
        ensures
            m.pairs@.len() == 0,
            forall|key: Seq<char>| m.value(key) is None,
    {
        RcMap { pairs: Vec::new() }
    }

    /// Sets `key` to `value`.
    pub fn insert(&mut self, key: String, value: String)
        ensures
            final(self).pairs@ == old(self).pairs@.push((key, value)),
            final(self).value(key@) == Some(value@),
            forall|other: Seq<char>| other != key@ ==> final(self).value(other) == old(self).value(other),
    {
        let ghost before = self.pairs@;
        self.pairs.push((key, value));
        proof {
            assert(self.pairs@.drop_last() =~= before);
        }
    }

    /// The value of `key`, if it is set.
    pub fn get(&self, key: &str) -> (r: Option<&String>)
        ensures
            match self.value(key@) {
                Some(value) => r matches Some(found) && found@ == value,
                None => r is None,
            },
    {
        let wanted: String = key.to_owned();
        let mut i: usize = self.pairs.len();
        proof {
            assert(self.pairs@.take(i as int) =~= self.pairs@);
        }
        while i > 0
            invariant
                i <= self.pairs@.len(),
                wanted@ == key@,
                self.value(key@) == lookup(self.pairs@.take(i as int), key@),
            decreases i,
        {
            proof {
                assert(self.pairs@.take(i as int).drop_last() =~= self.pairs@.take(i - 1));
                assert(self.pairs@.take(i as int).last() == self.pairs@[i - 1]);
            }
            i = i - 1;
            if self.pairs[i].0 == wanted {
                return Some(&self.pairs[i].1);
            }
        }
        None
    }
}

/// The regular expression that a setting's line matches: a key, an equals
/// sign and a value, none of them with white space inside.
pub open spec fn setting_pattern() -> Seq<char> {
    "^(\\S+)\\s*=\\s*(\\S+)"@
}

/// The settings that the first `k` of the lines make, in their order.
pub open spec fn settings(lines: Seq<String>, k: int) -> Seq<(Seq<char>, Seq<char>)>
    decreases k,
{
    if k <= 0 {
        Seq::empty()
    } else {
        match regex_groups(setting_pattern(), lines[k - 1]@) {
            Some(pair) => settings(lines, k - 1).push(pair),
            None => settings(lines, k - 1),
        }
    }
}

/// What the pairs of strings hold.
pub open spec fn pair_views(pairs: Seq<(String, String)>) -> Seq<(Seq<char>, Seq<char>)> {
    Seq::new(pairs.len(), |i: int| (pairs[i].0@, pairs[i].1@))
}

/// The path of the configuration file: the first that exists of
/// `/usr/local/etc/mecabrc` and `/etc/mecabrc`.
pub fn find_mecabrc(usr_local_exists: bool, etc_exists: bool) -> (r: Option<String>)
    ensures
        usr_local_exists ==> (r matches Some(path) && path@ == "/usr/local/etc/mecabrc"@),
        !usr_local_exists && etc_exists ==> (r matches Some(path) && path@ == "/etc/mecabrc"@),
        !usr_local_exists && !etc_exists ==> r is None,
{
    if usr_local_exists {
        Some("/usr/local/etc/mecabrc".to_owned())
    } else if etc_exists {
        Some("/etc/mecabrc".to_owned())
    } else {
        None
    }
}

/// Reads the settings from the lines of a configuration file.  A line that
/// does not match the pattern of a setting is passed over.
pub fn rc_map(lines: &Vec<String>) -> (rc: RcMap)
    ensures
        pair_views(rc.pairs@) == settings(lines@, lines@.len() as int),
{
    let mut rc = RcMap::new();
    let mut i: usize = 0;
    proof {
        assert(pair_views(rc.pairs@) =~= settings(lines@, 0));
    }
    while i < lines.len()
        invariant
            i <= lines@.len(),
            pair_views(rc.pairs@) == settings(lines@, i as int),
        decreases lines@.len() - i,
    {
        let ghost before = rc.pairs@;
        match capture_pair("^(\\S+)\\s*=\\s*(\\S+)", lines[i].as_str()) {
            Some((key, value)) => {
                rc.insert(key, value);
                proof {
                    assert(pair_views(rc.pairs@) =~= pair_views(before).push((key@, value@)));
                }
            },
            None => {},
        }
        i = i + 1;
    }
    rc
}

/// The path of the file `filename` in the dictionary directory.
pub fn get_dic_path(rc_map: &RcMap, filename: &str) -> (r: String)
    requires
        rc_map.value("dicdir"@) is Some,
    ensures
        r@ == rc_map.value("dicdir"@)->Some_0 + "/"@ + filename@,
{
    let dirname: &String = match rc_map.get("dicdir") {
        Some(dirname) => dirname,
        None => {
            proof {
                assert(false);
            }
            return String::new();
        },
    };
    let mut s: String = dirname.clone();
    s.append("/");
    s.append(filename);
    s
}

} // verus!
