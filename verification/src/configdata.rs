//! The key-value configuration store: integer-valued settings under string
//! keys, with a fixed set of defaults.
//!
//! The store is modelled as an association list with distinct keys; lookup
//! and update are specified over that list. Reading the store from its
//! persisted text and writing it back live in [`crate::config_text`].

use vstd::prelude::*;

use crate::numtext::{dec_text, i32_string, parse_i32_or_zero, parse_i32_chars};
use crate::text::{normalize_newlines, normalize_newlines_str, split_seq, split_chars, str_chars,
    str_eq, trim_chars, trim_seq};

verus! {

/// The first value under `key`, if any.
pub open spec fn cfg_lookup(entries: Seq<(Seq<char>, i32)>, key: Seq<char>) -> Option<i32>
    decreases entries.len(),
{
    if entries.len() == 0 {
        None
    } else if entries[0].0 == key {
        Some(entries[0].1)
    } else {
        cfg_lookup(entries.drop_first(), key)
    }
}

/// The entries with `key` bound to `val`: the first binding of `key` is
/// replaced in place, or a new binding is appended.
pub open spec fn cfg_set(entries: Seq<(Seq<char>, i32)>, key: Seq<char>, val: i32) -> Seq<
    (Seq<char>, i32),
>
    decreases entries.len(),
{
    if entries.len() == 0 {
        seq![(key, val)]
    } else if entries[0].0 == key {
        entries.update(0, (key, val))
    } else {
        seq![entries[0]] + cfg_set(entries.drop_first(), key, val)
    }
}

/// Setting a key makes lookups of it yield the new value, and leaves every
/// other key's value alone.
pub proof fn lemma_cfg_set_lookup(entries: Seq<(Seq<char>, i32)>, key: Seq<char>, val: i32, q: Seq<
    char,
>)
    ensures
        cfg_lookup(cfg_set(entries, key, val), q) == if q == key {
            Some(val)
        } else {
            cfg_lookup(entries, q)
        },
    decreases entries.len(),
{
    reveal_with_fuel(cfg_lookup, 3);
    reveal_with_fuel(cfg_set, 3);
    let r = cfg_set(entries, key, val);
    if entries.len() == 0 {
        assert(seq![(key, val)].drop_first() =~= Seq::<(Seq<char>, i32)>::empty());
    } else if entries[0].0 == key {
        assert(r[0] == (key, val));
        assert(r.drop_first() =~= entries.drop_first());
    } else {
        lemma_cfg_set_lookup(entries.drop_first(), key, val, q);
        assert(r[0] == entries[0]);
        assert(r.drop_first() =~= cfg_set(entries.drop_first(), key, val));
    }
}

/// Stores the config data.
pub struct ConfigData {
    entries: Vec<(String, i32)>,
}

impl View for ConfigData {
    type V = Seq<(Seq<char>, i32)>;

    closed spec fn view(&self) -> Seq<(Seq<char>, i32)> {
        self.entries@.map_values(|e: (String, i32)| (e.0@, e.1))
    }
}

/// The default settings of a fresh store.
pub open spec fn default_entries() -> Seq<(Seq<char>, i32)> {
    seq![
        ("maxcellwidth"@, 5i32),
        ("vimmode"@, 0i32),
        ("viewcellswidth"@, 10i32),
        ("viewcellsheight"@, 10i32),
        ("historysize"@, 100i32),
    ]
}

impl ConfigData {
    /// Create a new store holding the default parameters.
    pub fn new() -> (r: ConfigData)
        ensures
            r@ == default_entries(),
    {
        let mut entries: Vec<(String, i32)> = Vec::new();
        entries.push((String::from_str("maxcellwidth"), 5));
        entries.push((String::from_str("vimmode"), 0));
        entries.push((String::from_str("viewcellswidth"), 10));
        entries.push((String::from_str("viewcellsheight"), 10));
        entries.push((String::from_str("historysize"), 100));
        let r = ConfigData { entries };
        assert(r@ =~= default_entries());
        r
    }

    /// Get the config value of a string key.
    pub fn get_value(&self, key: &str) -> (r: Option<i32>)
        ensures
            r == cfg_lookup(self@, key@),
    {
        let n: usize = self.entries.len();
        assert(self@.skip(0) =~= self@);
        let mut i: usize = 0;
        while i < n
            invariant
                i <= n,
                n == self.entries@.len(),
                cfg_lookup(self@, key@) == cfg_lookup(self@.skip(i as int), key@),
            decreases n - i,
        {
            if str_eq(self.entries[i].0.as_str(), key) {
                assert(self@.skip(i as int)[0] == self@[i as int]);
                return Some(self.entries[i].1);
            }
            assert(self@.skip(i as int)[0] == self@[i as int]);
            assert(self@.skip(i as int).drop_first() =~= self@.skip(i as int + 1));
            i += 1;
        }
        assert(self@.skip(n as int).len() == 0);
        None
    }

    /// Set the config value of a string key: replace its binding in place,
    /// or append a new one.
    pub fn set_value(&mut self, key: &str, val: i32)
        ensures
            final(self)@ == cfg_set(old(self)@, key@, val),
    {
        let n: usize = self.entries.len();
        let mut i: usize = 0;
        while i < n
            invariant
                i <= n,
                n == self.entries@.len(),
                self@ == old(self)@,
                forall|j: int| 0 <= j < i ==> (#[trigger] self@[j]).0 != key@,
            decreases n - i,
        {
            if str_eq(self.entries[i].0.as_str(), key) {
                self.entries.set(i, (String::from_str(key), val));
                proof {
                    lemma_cfg_set_prefix(old(self)@, key@, val, i as int);
                    assert(self@ =~= old(self)@.update(i as int, (key@, val)));
                }
                return ;
            }
            i += 1;
        }
        self.entries.push((String::from_str(key), val));
        proof {
            lemma_cfg_set_missing(old(self)@, key@, val);
            assert(self@ =~= old(self)@.push((key@, val)));
        }
    }
}

/// One line of the persisted config applied: `key, value` sets the trimmed
/// key to the integer the trimmed value denotes (zero when it denotes
/// none); a line without a comma sets nothing, and pieces beyond the
/// second are ignored.
pub open spec fn applied_config_line(cfg: Seq<(Seq<char>, i32)>, line: Seq<char>) -> Seq<
    (Seq<char>, i32),
> {
    let ps = split_seq(line, ',');
    if ps.len() >= 2 {
        cfg_set(cfg, trim_seq(ps[0]), parse_i32_or_zero(trim_seq(ps[1])) as i32)
    } else {
        cfg
    }
}

/// The persisted config's lines applied in order, blank lines skipped.
pub open spec fn applied_config_lines(cfg: Seq<(Seq<char>, i32)>, lines: Seq<Seq<char>>) -> Seq<
    (Seq<char>, i32),
>
    decreases lines.len(),
{
    if lines.len() == 0 {
        cfg
    } else {
        let prev = applied_config_lines(cfg, lines.drop_last());
        if trim_seq(lines.last()).len() == 0 {
            prev
        } else {
            applied_config_line(prev, lines.last())
        }
    }
}

/// A persisted config text applied: line endings normalized, then each
/// non-blank line taken as a `key, value` setting.
pub open spec fn applied_config_text(cfg: Seq<(Seq<char>, i32)>, text: Seq<char>) -> Seq<
    (Seq<char>, i32),
> {
    applied_config_lines(cfg, split_seq(normalize_newlines(text), '\n'))
}

/// The display form of the store: one `key: value` line per entry.
pub open spec fn display_text(entries: Seq<(Seq<char>, i32)>) -> Seq<char>
    decreases entries.len(),
{
    if entries.len() == 0 {
        Seq::empty()
    } else {
        display_text(entries.drop_last()) + entries.last().0 + ": "@ + dec_text(
            entries.last().1 as int,
        ) + "\n"@
    }
}

/// The persisted form of the store: one `key, value` line per entry.
pub open spec fn config_file_text(entries: Seq<(Seq<char>, i32)>) -> Seq<char>
    decreases entries.len(),
{
    if entries.len() == 0 {
        Seq::empty()
    } else {
        config_file_text(entries.drop_last()) + entries.last().0 + ", "@ + dec_text(
            entries.last().1 as int,
        ) + "\n"@
    }
}

impl ConfigData {
    /// Apply a persisted config text: each non-blank `key, value` line sets
    /// the trimmed key to the integer the trimmed value denotes.
    pub fn apply_config_text(&mut self, contents: &str)
        ensures
            final(self)@ == applied_config_text(old(self)@, contents@),
    {
        let normalized = normalize_newlines_str(contents);
        let chars = str_chars(normalized.as_str());
        let lines = split_chars(&chars, '\n');
        let ghost linesv = lines.deep_view();
        let ghost cfg0 = self@;
        let mut i: usize = 0;
        while i < lines.len()
            invariant
                linesv == lines.deep_view(),
                linesv == split_seq(normalize_newlines(contents@), '\n'),
                i <= lines@.len(),
                lines@.len() == linesv.len(),
                self@ == applied_config_lines(cfg0, linesv.take(i as int)),
            decreases lines@.len() - i,
        {
            proof {
                assert(linesv[i as int] =~= lines@[i as int]@);
            }
            let line = &lines[i];
            let trimmed = trim_chars(line);
            if trimmed.len() > 0 {
                let ps = split_chars(line, ',');
                if ps.len() >= 2 {
                    proof {
                        assert(ps.deep_view()[0] =~= ps@[0]@);
                        assert(ps.deep_view()[1] =~= ps@[1]@);
                    }
                    let key = trim_chars(&ps[0]);
                    let valc = trim_chars(&ps[1]);
                    let valn = parse_i32_chars(&valc);
                    let keys = crate::text::string_from_chars(&key);
                    self.set_value(keys.as_str(), valn);
                    proof {
                        lemma_cfg_set_parse(
                            applied_config_lines(cfg0, linesv.take(i as int)),
                            linesv[i as int],
                            self@,
                        );
                    }
                }
            }
            i += 1;
            proof {
                assert(linesv.take(i as int).drop_last() =~= linesv.take(i - 1));
            }
        }
        proof {
            assert(linesv.take(linesv.len() as int) =~= linesv);
        }
    }

    /// Get the display of the config data, one `key: value` line per entry.
    pub fn display(&self) -> (r: String)
        ensures
            r@ == display_text(self@),
    {
        let mut res: String = String::new();
        let n: usize = self.entries.len();
        let mut i: usize = 0;
        while i < n
            invariant
                i <= n,
                n == self.entries@.len(),
                res@ == display_text(self@.take(i as int)),
            decreases n - i,
        {
            res.append(self.entries[i].0.as_str());
            res.append(": ");
            let vs = i32_string(self.entries[i].1);
            res.append(vs.as_str());
            res.append("\n");
            i += 1;
            proof {
                assert(self@.take(i as int).drop_last() =~= self@.take(i - 1));
                assert(res@ =~= display_text(self@.take(i as int)));
            }
        }
        proof {
            assert(self@.take(n as int) =~= self@);
        }
        res
    }

    /// The persisted form of the store, one `key, value` line per entry,
    /// ready to be written to the config file.
    pub fn save_text(&self) -> (r: String)
        ensures
            r@ == config_file_text(self@),
    {
        let mut res: String = String::new();
        let n: usize = self.entries.len();
        let mut i: usize = 0;
        while i < n
            invariant
                i <= n,
                n == self.entries@.len(),
                res@ == config_file_text(self@.take(i as int)),
            decreases n - i,
        {
            res.append(self.entries[i].0.as_str());
            res.append(", ");
            let vs = i32_string(self.entries[i].1);
            res.append(vs.as_str());
            res.append("\n");
            i += 1;
            proof {
                assert(self@.take(i as int).drop_last() =~= self@.take(i - 1));
                assert(res@ =~= config_file_text(self@.take(i as int)));
            }
        }
        proof {
            assert(self@.take(n as int) =~= self@);
        }
        res
    }
}

/// Unfolding aid: one applied line in terms of `cfg_set`.
proof fn lemma_cfg_set_parse(cfg: Seq<(Seq<char>, i32)>, line: Seq<char>, after: Seq<
    (Seq<char>, i32),
>)
    requires
        split_seq(line, ',').len() >= 2,
        after == cfg_set(
            cfg,
            trim_seq(split_seq(line, ',')[0]),
            parse_i32_or_zero(trim_seq(split_seq(line, ',')[1])) as i32,
        ),
    ensures
        after == applied_config_line(cfg, line),
{
}

/// When the first binding of `key` stands at index `i`, setting `key`
/// updates that very slot.
proof fn lemma_cfg_set_prefix(entries: Seq<(Seq<char>, i32)>, key: Seq<char>, val: i32, i: int)
    requires
        0 <= i < entries.len(),
        entries[i].0 == key,
        forall|j: int| 0 <= j < i ==> (#[trigger] entries[j]).0 != key,
    ensures
        cfg_set(entries, key, val) == entries.update(i, (key, val)),
    decreases i,
{
    if i == 0 {
        assert(cfg_set(entries, key, val) =~= entries.update(0, (key, val)));
    } else {
        let tail = entries.drop_first();
        assert(forall|j: int| 0 <= j < i - 1 ==> (#[trigger] tail[j]).0 == entries[j + 1].0);
        lemma_cfg_set_prefix(tail, key, val, i - 1);
        assert(seq![entries[0]] + tail.update(i - 1, (key, val)) =~= entries.update(
            i,
            (key, val),
        ));
    }
}

/// When no binding of `key` exists, setting `key` appends one.
proof fn lemma_cfg_set_missing(entries: Seq<(Seq<char>, i32)>, key: Seq<char>, val: i32)
    requires
        forall|j: int| 0 <= j < entries.len() ==> (#[trigger] entries[j]).0 != key,
    ensures
        cfg_set(entries, key, val) == entries.push((key, val)),
    decreases entries.len(),
{
    if entries.len() == 0 {
        assert(cfg_set(entries, key, val) =~= entries.push((key, val)));
    } else {
        let tail = entries.drop_first();
        assert(forall|j: int| 0 <= j < tail.len() ==> (#[trigger] tail[j]).0 == entries[j + 1].0);
        lemma_cfg_set_missing(tail, key, val);
        assert(seq![entries[0]] + tail.push((key, val)) =~= entries.push((key, val)));
    }
}

} // verus!
