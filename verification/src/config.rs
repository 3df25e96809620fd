//! Settings of a repository: `key = value` lines of `.vrit/config`.

use vstd::prelude::*;
use crate::text::{chars_of, find_char_in, find_from, lines_from, next_line, string_from_chars, trim, trim_range};

verus! {

broadcast use vstd::seq::group_seq_axioms;

/// The setting of one line: `key = value`, both sides trimmed, split at the
/// first `=`; `None` for a line without `=`.
pub open spec fn setting_of(t: Seq<char>) -> Option<(Seq<char>, Seq<char>)> {
    match find_from(t, '=', 0) {
        Some(j) => Some((trim(t.take(j)), trim(t.skip(j + 1)))),
        None => None,
    }
}

/// The settings of the lines of a config file, in order: each line trimmed;
/// empty lines, `#` comments and lines without `=` skipped.
pub open spec fn settings_of(ls: Seq<Seq<char>>) -> Seq<(Seq<char>, Seq<char>)>
    decreases ls.len(),
{
    if ls.len() == 0 {
        Seq::empty()
    } else {
        let r = settings_of(ls.drop_last());
        let t = trim(ls.last());
        if t.len() == 0 || t[0] == '#' {
            r
        } else {
            match setting_of(t) {
                Some(kv) => r.push(kv),
                None => r,
            }
        }
    }
}

/// The map of a list of settings: a later setting of a key replaces an
/// earlier one.
pub open spec fn settings_map(kvs: Seq<(Seq<char>, Seq<char>)>) -> Map<Seq<char>, Seq<char>>
    decreases kvs.len(),
{
    if kvs.len() == 0 {
        Map::empty()
    } else {
        settings_map(kvs.drop_last()).insert(kvs.last().0, kvs.last().1)
    }
}

/// The map a config file's text describes.
pub open spec fn config_of(content: Seq<char>) -> Map<Seq<char>, Seq<char>> {
    settings_map(settings_of(lines_from(content, 0)))
}

/// The repository settings.
pub struct Config {
    values: Vec<(String, String)>,
}

/// The settings as a list of views.
spec fn setting_views(v: Seq<(String, String)>) -> Seq<(Seq<char>, Seq<char>)> {
    v.map_values(|kv: (String, String)| (kv.0@, kv.1@))
}

impl View for Config {
    type V = Map<Seq<char>, Seq<char>>;

    closed spec fn view(&self) -> Map<Seq<char>, Seq<char>> {
        settings_map(setting_views(self.values@))
    }
}

/// The message of `require` for a missing key.
pub open spec fn missing_key_message(key: Seq<char>) -> Seq<char> {
    key + " is not set in .vrit/config — please add it before committing"@
}

impl Config {
    /// The settings of a config file's text.
    pub fn from_text(content: &str) -> (out: Config)
        ensures
            out@ == config_of(content@),
    {
        let cs = chars_of(content);
        let mut values: Vec<(String, String)> = Vec::new();
        let ghost mut seen: Seq<Seq<char>> = Seq::empty();
        let mut pos: usize = 0;
        while pos < cs.len()
            invariant
                cs@ == content@,
                pos <= cs@.len(),
                seen + lines_from(cs@, pos as int) == lines_from(cs@, 0),
                setting_views(values@) == settings_of(seen),
            decreases cs@.len() - pos,
        {
            let (end, next) = next_line(cs.as_slice(), pos);
            let ghost line = cs@.subrange(pos as int, end as int);
            let (a, b) = trim_range(cs.as_slice(), pos, end);
            let ghost t = trim(line);
            let ghost before = setting_views(values@);
            assert(cs@.subrange(a as int, b as int) == t);
            proof {
                assert(seen.push(line).drop_last() == seen);
                assert(seen.push(line).last() == line);
            }
            if b > a && cs[a] != '#' {
                assert(t[0] == cs@[a as int]);
                match find_char_in(cs.as_slice(), '=', a, b) {
                    Some(j) => {
                        let (ka, kb) = trim_range(cs.as_slice(), a, j);
                        let (va, vb) = trim_range(cs.as_slice(), j + 1, b);
                        let key = string_from_chars(cs.as_slice(), ka, kb);
                        let val = string_from_chars(cs.as_slice(), va, vb);
                        proof {
                            assert(t.take(j - a) == cs@.subrange(a as int, j as int));
                            assert(t.skip(j - a + 1) == cs@.subrange(j + 1, b as int));
                        }
                        values.push((key, val));
                        assert(setting_views(values@) == before.push(setting_of(t)->0));
                    },
                    None => {},
                }
            } else {
                assert(t.len() == 0 || t[0] == '#');
            }
            proof {
                assert(seen + lines_from(cs@, pos as int) == seen.push(line) + lines_from(cs@, next as int));
                seen = seen.push(line);
            }
            pos = next;
        }
        assert(lines_from(cs@, pos as int) == Seq::<Seq<char>>::empty());
        assert(seen + Seq::<Seq<char>>::empty() == seen);
        Config { values }
    }

    /// The value set for a key.
    pub fn get(&self, key: &str) -> (out: Option<&str>)
        ensures
            out is Some <==> self@.contains_key(key@),
            out matches Some(v) ==> v@ == self@[key@],
    {
        let ghost kvs = setting_views(self.values@);
        let mut i: usize = self.values.len();
        assert(kvs.take(i as int) == kvs);
        while i > 0
            invariant
                i <= self.values@.len(),
                kvs == setting_views(self.values@),
                settings_map(kvs).contains_key(key@) == settings_map(kvs.take(i as int)).contains_key(key@),
                settings_map(kvs).contains_key(key@) ==> settings_map(kvs)[key@] == settings_map(
                    kvs.take(i as int),
                )[key@],
            decreases i,
        {
            let ghost sub = kvs.take(i as int);
            assert(sub.drop_last() == kvs.take(i - 1));
            assert(sub.last() == kvs[i - 1]);
            if crate::text::str_eq(self.values[i - 1].0.as_str(), key) {
                return Some(self.values[i - 1].1.as_str());
            }
            i = i - 1;
        }
        assert(kvs.take(0) == Seq::<(Seq<char>, Seq<char>)>::empty());
        None
    }

    /// The value set for a key, or the message that asks for it.
    pub fn require(&self, key: &str) -> (out: Result<&str, String>)
        ensures
            out is Ok <==> self@.contains_key(key@),
            out matches Ok(v) ==> v@ == self@[key@],
            out matches Err(m) ==> m@ == missing_key_message(key@),
    {
        match self.get(key) {
            Some(v) => Ok(v),
            None => {
                let mut m = String::from_str(key);
                m.append(" is not set in .vrit/config — please add it before committing");
                Err(m)
            },
        }
    }
}

} // verus!
