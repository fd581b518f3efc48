//! The command line: commands, their `--name value` flags, and what a drift
//! check prints.

use vstd::prelude::*;
use crate::drift::{DriftEntry, DriftKind, DriftReport, DriftSeverity, EntryView, entries_view, summary_text};
use crate::text::{chars_of, push_char, starts_with, string_of_range, text_starts_with};

verus! {

/// Arguments of `snapshot`.
#[derive(Debug)]
pub struct SnapshotArgs {
    pub schema: String,
    pub out: String,
    pub system: String,
    pub environment: String,
    pub server: String,
    pub approved_by: String,
}

/// Arguments of `check`.
#[derive(Debug)]
pub struct CheckArgs {
    pub snapshot: String,
    pub schema: String,
}

/// Arguments of `serve`.
#[derive(Debug)]
pub struct ServeArgs {
    pub addr: String,
    pub data_dir: String,
}

/// A command line.
#[derive(Debug)]
pub enum Command {
    Snapshot(SnapshotArgs),
    Check(CheckArgs),
    Serve(ServeArgs),
    Help,
}

/// Flag values by name; a name occurs once.
#[derive(Debug)]
pub struct FlagMap {
    pub entries: Vec<(String, String)>,
}

/// The view of flag entries.
pub open spec fn flag_entries(v: Seq<(String, String)>) -> Seq<(Seq<char>, Seq<char>)> {
    Seq::new(v.len(), |i: int| (v[i].0@, v[i].1@))
}

/// The value recorded for `key`.
pub open spec fn flag_value(fs: Seq<(Seq<char>, Seq<char>)>, key: Seq<char>) -> Option<Seq<char>>
    decreases fs.len(),
{
    if fs.len() == 0 {
        None
    } else if fs[0].0 == key {
        Some(fs[0].1)
    } else {
        flag_value(fs.drop_first(), key)
    }
}

/// Records `value` under `key`, replacing a value recorded before.
pub open spec fn insert_flag(fs: Seq<(Seq<char>, Seq<char>)>, key: Seq<char>, value: Seq<char>) -> Seq<(Seq<char>, Seq<char>)>
    decreases fs.len(),
{
    if fs.len() == 0 {
        seq![(key, value)]
    } else if fs[0].0 == key {
        seq![(key, value)] + fs.drop_first()
    } else {
        seq![fs[0]] + insert_flag(fs.drop_first(), key, value)
    }
}

/// Recording a flag value makes it the value of its name and leaves every
/// other name's value as it was: of a flag given twice, the later value wins.
pub proof fn law_later_flag_value_wins(fs: Seq<(Seq<char>, Seq<char>)>, key: Seq<char>, value: Seq<char>, other: Seq<char>)
    ensures
        flag_value(insert_flag(fs, key, value), other) == if other == key {
            Some(value)
        } else {
            flag_value(fs, other)
        },
    decreases fs.len(),
{
    if fs.len() == 0 {
        let ins = seq![(key, value)];
        assert(insert_flag(fs, key, value) == ins);
        assert(ins.drop_first() =~= Seq::<(Seq<char>, Seq<char>)>::empty());
        assert(flag_value(ins, other) == if ins[0].0 == other { Some(ins[0].1) } else { flag_value(ins.drop_first(), other) });
    } else if fs[0].0 != key {
        law_later_flag_value_wins(fs.drop_first(), key, value, other);
        let ins = seq![fs[0]] + insert_flag(fs.drop_first(), key, value);
        assert(insert_flag(fs, key, value) == ins);
        assert(ins[0] == fs[0]);
        assert(ins.drop_first() =~= insert_flag(fs.drop_first(), key, value));
        assert(flag_value(ins, other) == if ins[0].0 == other { Some(ins[0].1) } else { flag_value(ins.drop_first(), other) });
    } else {
        let ins = seq![(key, value)] + fs.drop_first();
        assert(insert_flag(fs, key, value) == ins);
        assert(ins[0] == (key, value));
        assert(ins.drop_first() =~= fs.drop_first());
        assert(flag_value(ins, other) == if ins[0].0 == other { Some(ins[0].1) } else { flag_value(ins.drop_first(), other) });
    }
}

impl FlagMap {
    /// The value of flag `key`.
    pub fn get(&self, key: &str) -> (r: Option<&String>)
        ensures
            match flag_value(flag_entries(self.entries@), key@) {
                Some(v) => r matches Some(s) && s@ == v,
                None => r is None,
            },
    {
        let ghost fs = flag_entries(self.entries@);
        let wanted = String::from_str(key);
        let mut i: usize = 0;
        assert(fs.skip(0) =~= fs);
        while i < self.entries.len()
            invariant
                i <= self.entries@.len(),
                fs == flag_entries(self.entries@),
                wanted@ == key@,
                flag_value(fs, key@) == flag_value(fs.skip(i as int), key@),
            decreases self.entries@.len() - i,
        {
            if self.entries[i].0 == wanted {
                return Some(&self.entries[i].1);
            }
            assert(fs.skip(i as int).drop_first() =~= fs.skip(i + 1));
            i = i + 1;
        }
        None
    }

    /// Records `value` under `key`, replacing a value recorded before.
    pub fn insert(&mut self, key: String, value: String)
        ensures
            flag_entries(final(self).entries@) == insert_flag(flag_entries(old(self).entries@), key@, value@),
    {
        let ghost fs = flag_entries(self.entries@);
        let mut i: usize = 0;
        assert(fs.take(0) =~= Seq::<(Seq<char>, Seq<char>)>::empty());
        assert(fs.skip(0) =~= fs);
        assert(fs.take(0) + insert_flag(fs.skip(0), key@, value@) =~= insert_flag(fs, key@, value@));
        while i < self.entries.len()
            invariant
                i <= self.entries@.len(),
                fs == flag_entries(self.entries@),
                fs == flag_entries(old(self).entries@),
                forall|k: int| 0 <= k < i ==> #[trigger] fs[k].0 != key@,
                insert_flag(fs, key@, value@) == fs.take(i as int) + insert_flag(fs.skip(i as int), key@, value@),
            decreases self.entries@.len() - i,
        {
            if self.entries[i].0 == key {
                let ghost before = self.entries@;
                self.entries.set(i, (key, value));
                assert(fs.skip(i as int).drop_first() =~= fs.skip(i + 1));
                assert(flag_entries(self.entries@) =~= fs.take(i as int) + insert_flag(fs.skip(i as int), key@, value@));
                return;
            }
            assert(fs.skip(i as int).drop_first() =~= fs.skip(i + 1));
            assert(fs.take(i + 1) =~= fs.take(i as int).push(fs[i as int]));
            assert(fs.take(i as int) + (seq![fs[i as int]] + insert_flag(fs.skip(i + 1), key@, value@)) =~= fs.take(i + 1) + insert_flag(fs.skip(i + 1), key@, value@));
            i = i + 1;
        }
        let ghost before = self.entries@;
        self.entries.push((key, value));
        assert(fs.skip(fs.len() as int) =~= Seq::<(Seq<char>, Seq<char>)>::empty());
        assert(fs.take(fs.len() as int) =~= fs);
        assert(flag_entries(self.entries@) =~= fs.push((key@, value@)));
    }
}

/// `s` without its leading repetitions of `--`.
pub open spec fn strip_dashes(s: Seq<char>) -> Seq<char>
    decreases s.len(),
{
    if s.len() >= 2 && s[0] == '-' && s[1] == '-' {
        strip_dashes(s.skip(2))
    } else {
        s
    }
}

/// `s` with every `-` replaced by `_`.
pub open spec fn dashes_to_underscores(s: Seq<char>) -> Seq<char> {
    Seq::new(s.len(), |i: int| if s[i] == '-' { '_' } else { s[i] })
}

/// The name a flag is recorded under.
pub open spec fn flag_name(key: Seq<char>) -> Seq<char> {
    dashes_to_underscores(strip_dashes(key))
}

/// The flags recorded from the first `k` pairs of arguments.
pub open spec fn flags_from(args: Seq<Seq<char>>, k: int) -> Seq<(Seq<char>, Seq<char>)>
    decreases k,
{
    if k <= 0 {
        Seq::empty()
    } else {
        insert_flag(flags_from(args, k - 1), flag_name(args[2 * (k - 1)]), args[2 * (k - 1) + 1])
    }
}

/// The first pair, from pair `k` on, whose name lacks the `--` mark.
pub open spec fn first_bad_flag(args: Seq<Seq<char>>, k: int) -> Option<Seq<char>>
    decreases args.len() - k,
{
    if k < 0 || 2 * k >= args.len() {
        None
    } else if !starts_with(args[2 * k], "--"@) {
        Some(args[2 * k])
    } else {
        first_bad_flag(args, k + 1)
    }
}

/// The flags of a list of `--name value` arguments, or why they are not such a list.
pub open spec fn parsed_flags(args: Seq<Seq<char>>) -> Result<Seq<(Seq<char>, Seq<char>)>, Seq<char>> {
    if args.len() % 2 != 0 {
        Err("Flags must be provided as --name value pairs."@)
    } else {
        match first_bad_flag(args, 0) {
            Some(key) => Err("Expected a flag starting with '--', found '"@ + key + "'."@),
            None => Ok(flags_from(args, (args.len() / 2) as int)),
        }
    }
}

pub open spec fn arg_texts(args: Seq<String>) -> Seq<Seq<char>> {
    Seq::new(args.len(), |i: int| args[i]@)
}

fn flag_name_of(key: &String) -> (r: String)
    ensures
        r@ == flag_name(key@),
{
    let cs = chars_of(key.as_str());
    let mut lo: usize = 0;
    assert(key@.skip(0) =~= key@);
    while lo < cs.len() && cs.len() - lo >= 2 && cs[lo] == '-' && cs[lo + 1] == '-'
        invariant
            cs@ == key@,
            lo <= cs@.len(),
            strip_dashes(key@) == strip_dashes(key@.skip(lo as int)),
        decreases cs@.len() - lo,
    {
        assert(key@.skip(lo as int).skip(2) =~= key@.skip(lo + 2));
        lo = lo + 2;
    }
    let mut r = String::new();
    let mut i: usize = lo;
    let ghost t = key@.skip(lo as int);
    while i < cs.len()
        invariant
            cs@ == key@,
            lo <= i <= cs@.len(),
            t == key@.skip(lo as int),
            r@ == dashes_to_underscores(t).take(i - lo),
        decreases cs@.len() - i,
    {
        let c = if cs[i] == '-' {
            '_'
        } else {
            cs[i]
        };
        push_char(&mut r, c);
        assert(dashes_to_underscores(t).take(i + 1 - lo) =~= dashes_to_underscores(t).take(i - lo).push(c));
        i = i + 1;
    }
    assert(dashes_to_underscores(t).take(cs@.len() - lo) =~= dashes_to_underscores(t));
    r
}

/// Reads `--name value` pairs; a name's dashes after the leading `--` become underscores.
pub fn parse_flag_map(args: &Vec<String>) -> (r: Result<FlagMap, String>)
    ensures
        match parsed_flags(arg_texts(args@)) {
            Ok(fs) => r matches Ok(m) && flag_entries(m.entries@) == fs,
            Err(e) => r matches Err(m) && m@ == e,
        },
{
    let ghost a = arg_texts(args@);
    if args.len() % 2 != 0 {
        return Err(String::from_str("Flags must be provided as --name value pairs."));
    }
    let mut values = FlagMap { entries: Vec::new() };
    let mut index: usize = 0;
    assert(flag_entries(values.entries@) =~= flags_from(a, 0));
    while index < args.len()
        invariant
            a == arg_texts(args@),
            args@.len() % 2 == 0,
            index % 2 == 0,
            index <= args@.len(),
            flag_entries(values.entries@) == flags_from(a, (index / 2) as int),
            first_bad_flag(a, 0) == first_bad_flag(a, index as int / 2),
        decreases args@.len() - index,
    {
        let key = &args[index];
        let value = &args[index + 1];
        let kc = chars_of(key.as_str());
        if !text_starts_with(&kc, "--") {
            let mut m = String::from_str("Expected a flag starting with '--', found '");
            m.append(key.as_str());
            m.append("'.");
            assert(a[index as int] == key@);
            return Err(m);
        }
        let name = flag_name_of(key);
        values.insert(name, value.clone());
        assert(a[index as int] == key@);
        assert(a[index + 1] == value@);
        assert((index + 2) / 2 == index / 2 + 1);
        index = index + 2;
    }
    Ok(values)
}

pub open spec fn missing_flag_message(key: Seq<char>) -> Seq<char> {
    "Missing required flag --"@ + key + "."@
}

/// The value of a flag that must be given.
pub fn required_string(values: &FlagMap, key: &str) -> (r: Result<String, String>)
    ensures
        match flag_value(flag_entries(values.entries@), key@) {
            Some(v) => r matches Ok(s) && s@ == v,
            None => r matches Err(m) && m@ == missing_flag_message(key@),
        },
{
    match values.get(key) {
        Some(v) => Ok(v.clone()),
        None => {
            let mut m = String::from_str("Missing required flag --");
            m.append(key);
            m.append(".");
            Err(m)
        },
    }
}

/// The path given by a flag that must be given.
pub fn required_path(values: &FlagMap, key: &str) -> (r: Result<String, String>)
    ensures
        match flag_value(flag_entries(values.entries@), key@) {
            Some(v) => r matches Ok(s) && s@ == v,
            None => r matches Err(m) && m@ == missing_flag_message(key@),
        },
{
    required_string(values, key)
}


/// The value of a flag that must be given, or the message for its absence.
pub open spec fn required(fs: Seq<(Seq<char>, Seq<char>)>, key: Seq<char>) -> Result<Seq<char>, Seq<char>> {
    match flag_value(fs, key) {
        Some(v) => Ok(v),
        None => Err(missing_flag_message(key)),
    }
}

/// The flag values of `snapshot`: schema, out, system, environment, server,
/// approved_by; or the message for the first one missing.
pub open spec fn snapshot_flags(fs: Seq<(Seq<char>, Seq<char>)>) -> Result<Seq<Seq<char>>, Seq<char>> {
    match required(fs, "schema"@) {
        Err(e) => Err(e),
        Ok(schema) => match required(fs, "out"@) {
            Err(e) => Err(e),
            Ok(out) => match required(fs, "system"@) {
                Err(e) => Err(e),
                Ok(system) => match required(fs, "environment"@) {
                    Err(e) => Err(e),
                    Ok(environment) => match required(fs, "server"@) {
                        Err(e) => Err(e),
                        Ok(server) => match required(fs, "approved_by"@) {
                            Err(e) => Err(e),
                            Ok(approved_by) => Ok(seq![schema, out, system, environment, server, approved_by]),
                        },
                    },
                },
            },
        },
    }
}

pub open spec fn snapshot_args_view(a: SnapshotArgs) -> Seq<Seq<char>> {
    seq![a.schema@, a.out@, a.system@, a.environment@, a.server@, a.approved_by@]
}

/// Reads the flags of `snapshot`.
pub fn parse_snapshot_args(args: &Vec<String>) -> (r: Result<SnapshotArgs, String>)
    ensures
        match parsed_flags(arg_texts(args@)) {
            Err(e) => r matches Err(m) && m@ == e,
            Ok(fs) => match snapshot_flags(fs) {
                Err(e) => r matches Err(m) && m@ == e,
                Ok(vs) => r matches Ok(a) && snapshot_args_view(a) == vs,
            },
        },
{
    let values = match parse_flag_map(args) {
        Ok(v) => v,
        Err(e) => {
            return Err(e);
        },
    };
    let ghost fs = flag_entries(values.entries@);
    let schema = required_path(&values, "schema");
    let schema = match schema {
        Ok(v) => v,
        Err(e) => {
            return Err(e);
        },
    };
    let out = match required_path(&values, "out") {
        Ok(v) => v,
        Err(e) => {
            return Err(e);
        },
    };
    let system = match required_string(&values, "system") {
        Ok(v) => v,
        Err(e) => {
            return Err(e);
        },
    };
    let environment = match required_string(&values, "environment") {
        Ok(v) => v,
        Err(e) => {
            return Err(e);
        },
    };
    let server = match required_string(&values, "server") {
        Ok(v) => v,
        Err(e) => {
            return Err(e);
        },
    };
    let approved_by = match required_string(&values, "approved_by") {
        Ok(v) => v,
        Err(e) => {
            return Err(e);
        },
    };
    let a = SnapshotArgs { schema, out, system, environment, server, approved_by };
    assert(snapshot_args_view(a) =~= seq![a.schema@, a.out@, a.system@, a.environment@, a.server@, a.approved_by@]);
    Ok(a)
}


/// The flag values of `check`: snapshot and schema.
pub open spec fn check_flags(fs: Seq<(Seq<char>, Seq<char>)>) -> Result<Seq<Seq<char>>, Seq<char>> {
    match required(fs, "snapshot"@) {
        Err(e) => Err(e),
        Ok(snapshot) => match required(fs, "schema"@) {
            Err(e) => Err(e),
            Ok(schema) => Ok(seq![snapshot, schema]),
        },
    }
}

/// Reads the flags of `check`.
pub fn parse_check_args(args: &Vec<String>) -> (r: Result<CheckArgs, String>)
    ensures
        match parsed_flags(arg_texts(args@)) {
            Err(e) => r matches Err(m) && m@ == e,
            Ok(fs) => match check_flags(fs) {
                Err(e) => r matches Err(m) && m@ == e,
                Ok(vs) => r matches Ok(a) && seq![a.snapshot@, a.schema@] == vs,
            },
        },
{
    let values = match parse_flag_map(args) {
        Ok(v) => v,
        Err(e) => {
            return Err(e);
        },
    };
    let snapshot = match required_path(&values, "snapshot") {
        Ok(v) => v,
        Err(e) => {
            return Err(e);
        },
    };
    let schema = match required_path(&values, "schema") {
        Ok(v) => v,
        Err(e) => {
            return Err(e);
        },
    };
    let a = CheckArgs { snapshot, schema };
    assert(seq![a.snapshot@, a.schema@] =~= seq![snapshot@, schema@]);
    Ok(a)
}

/// The address and data directory of `serve`, defaults filled in.
pub open spec fn serve_flags(fs: Seq<(Seq<char>, Seq<char>)>) -> (Seq<char>, Seq<char>) {
    (
        match flag_value(fs, "addr"@) {
            Some(v) => v,
            None => "127.0.0.1:8080"@,
        },
        match flag_value(fs, "data_dir"@) {
            Some(v) => v,
            None => ".gatepost"@,
        },
    )
}

/// Reads the flags of `serve`.
pub fn parse_serve_args(args: &Vec<String>) -> (r: Result<ServeArgs, String>)
    ensures
        match parsed_flags(arg_texts(args@)) {
            Err(e) => r matches Err(m) && m@ == e,
            Ok(fs) => r matches Ok(a) && (a.addr@, a.data_dir@) == serve_flags(fs),
        },
{
    let values = match parse_flag_map(args) {
        Ok(v) => v,
        Err(e) => {
            return Err(e);
        },
    };
    let addr = match values.get("addr") {
        Some(v) => v.clone(),
        None => String::from_str("127.0.0.1:8080"),
    };
    let data_dir = match values.get("data_dir") {
        Some(v) => v.clone(),
        None => String::from_str(".gatepost"),
    };
    Ok(ServeArgs { addr, data_dir })
}

/// The view of a command.
pub enum CommandView {
    Snapshot(Seq<Seq<char>>),
    Check(Seq<Seq<char>>),
    Serve(Seq<char>, Seq<char>),
    Help,
}

pub open spec fn command_view(c: Command) -> CommandView {
    match c {
        Command::Snapshot(a) => CommandView::Snapshot(snapshot_args_view(a)),
        Command::Check(a) => CommandView::Check(seq![a.snapshot@, a.schema@]),
        Command::Serve(a) => CommandView::Serve(a.addr@, a.data_dir@),
        Command::Help => CommandView::Help,
    }
}

/// The command a command line asks for, or why it asks for none.
pub open spec fn command_of(a: Seq<Seq<char>>) -> Result<CommandView, Seq<char>> {
    if a.len() == 0 {
        Ok(CommandView::Help)
    } else {
        let rest = a.skip(1);
        if a[0] == "snapshot"@ {
            match parsed_flags(rest) {
                Err(e) => Err(e),
                Ok(fs) => match snapshot_flags(fs) {
                    Err(e) => Err(e),
                    Ok(vs) => Ok(CommandView::Snapshot(vs)),
                },
            }
        } else if a[0] == "check"@ {
            match parsed_flags(rest) {
                Err(e) => Err(e),
                Ok(fs) => match check_flags(fs) {
                    Err(e) => Err(e),
                    Ok(vs) => Ok(CommandView::Check(vs)),
                },
            }
        } else if a[0] == "serve"@ {
            match parsed_flags(rest) {
                Err(e) => Err(e),
                Ok(fs) => Ok(CommandView::Serve(serve_flags(fs).0, serve_flags(fs).1)),
            }
        } else if a[0] == "help"@ || a[0] == "--help"@ || a[0] == "-h"@ {
            Ok(CommandView::Help)
        } else {
            Err("Unknown command '"@ + a[0] + "'."@)
        }
    }
}

/// The command a command line (without the program name) asks for.
pub fn parse_command(args: Vec<String>) -> (r: Result<Command, String>)
    ensures
        match command_of(arg_texts(args@)) {
            Ok(c) => r matches Ok(cmd) && command_view(cmd) == c,
            Err(e) => r matches Err(m) && m@ == e,
        },
{
    if args.len() == 0 {
        return Ok(Command::Help);
    }
    let mut rest: Vec<String> = Vec::new();
    let mut i: usize = 1;
    while i < args.len()
        invariant
            1 <= i <= args@.len(),
            rest@.len() == i - 1,
            forall|k: int| 0 <= k < i - 1 ==> #[trigger] rest@[k]@ == args@[k + 1]@,
        decreases args@.len() - i,
    {
        rest.push(args[i].clone());
        i = i + 1;
    }
    assert(arg_texts(rest@) =~= arg_texts(args@).skip(1));
    let command = &args[0];
    if *command == String::from_str("snapshot") {
        match parse_snapshot_args(&rest) {
            Ok(a) => Ok(Command::Snapshot(a)),
            Err(e) => Err(e),
        }
    } else if *command == String::from_str("check") {
        match parse_check_args(&rest) {
            Ok(a) => Ok(Command::Check(a)),
            Err(e) => Err(e),
        }
    } else if *command == String::from_str("serve") {
        match parse_serve_args(&rest) {
            Ok(a) => Ok(Command::Serve(a)),
            Err(e) => Err(e),
        }
    } else if *command == String::from_str("help") || *command == String::from_str("--help")
        || *command == String::from_str("-h") {
        Ok(Command::Help)
    } else {
        let mut m = String::from_str("Unknown command '");
        m.append(command.as_str());
        m.append("'.");
        Err(m)
    }
}

/// `s` without its leading repetitions of `pat`: `str::trim_start_matches`.
pub open spec fn strip_prefix_all(s: Seq<char>, pat: Seq<char>) -> Seq<char>
    decreases s.len(),
{
    if pat.len() > 0 && starts_with(s, pat) {
        strip_prefix_all(s.skip(pat.len() as int), pat)
    } else {
        s
    }
}

/// `s` ends with `suffix`.
pub open spec fn ends_with(s: Seq<char>, suffix: Seq<char>) -> bool {
    suffix.len() <= s.len() && s.skip(s.len() - suffix.len()) == suffix
}

/// `s` without its trailing repetitions of `pat`: `str::trim_end_matches`.
pub open spec fn strip_suffix_all(s: Seq<char>, pat: Seq<char>) -> Seq<char>
    decreases s.len(),
{
    if pat.len() > 0 && ends_with(s, pat) {
        strip_suffix_all(s.take(s.len() - pat.len()), pat)
    } else {
        s
    }
}

/// `s` without `c` at either end: `str::trim_matches` with a character.
pub open spec fn trim_char(s: Seq<char>, c: char) -> Seq<char> {
    strip_suffix_all(strip_prefix_all(s, seq![c]), seq![c])
}

/// Whether `cs[lo..hi]` ends with `pat`.
fn range_ends_with(cs: &Vec<char>, lo: usize, hi: usize, pat: &Vec<char>) -> (r: bool)
    requires
        lo <= hi <= cs@.len(),
    ensures
        r == ends_with(cs@.subrange(lo as int, hi as int), pat@),
{
    let m = pat.len();
    if m > hi - lo {
        return false;
    }
    let start = hi - m;
    let mut j: usize = 0;
    while j < m
        invariant
            lo <= start,
            start + m == hi,
            hi <= cs@.len(),
            m == pat@.len(),
            j <= m,
            forall|k: int| 0 <= k < j ==> cs@[start + k] == pat@[k],
        decreases m - j,
    {
        if cs[start + j] != pat[j] {
            let ghost t = cs@.subrange(lo as int, hi as int);
            assert(t.skip(t.len() - m)[j as int] == cs@[start + j]);
            return false;
        }
        j = j + 1;
    }
    let ghost t = cs@.subrange(lo as int, hi as int);
    assert(t.skip(t.len() - m) =~= pat@);
    true
}

/// Whether `cs[lo..hi]` starts with `pat`.
fn range_starts_with(cs: &Vec<char>, lo: usize, hi: usize, pat: &Vec<char>) -> (r: bool)
    requires
        lo <= hi <= cs@.len(),
    ensures
        r == starts_with(cs@.subrange(lo as int, hi as int), pat@),
{
    let m = pat.len();
    if m > hi - lo {
        return false;
    }
    let mut j: usize = 0;
    while j < m
        invariant
            lo + m <= hi,
            hi <= cs@.len(),
            m == pat@.len(),
            j <= m,
            forall|k: int| 0 <= k < j ==> cs@[lo + k] == pat@[k],
        decreases m - j,
    {
        if cs[lo + j] != pat[j] {
            let ghost t = cs@.subrange(lo as int, hi as int);
            assert(t.take(m as int)[j as int] == cs@[lo + j]);
            return false;
        }
        j = j + 1;
    }
    let ghost t = cs@.subrange(lo as int, hi as int);
    assert(t.take(m as int) =~= pat@);
    true
}

/// The bounds of `cs[lo..hi]` once leading repetitions of `pat` are removed.
fn strip_prefix_range(cs: &Vec<char>, lo: usize, hi: usize, pat: &Vec<char>) -> (r: usize)
    requires
        lo <= hi <= cs@.len(),
    ensures
        lo <= r <= hi,
        cs@.subrange(r as int, hi as int) == strip_prefix_all(cs@.subrange(lo as int, hi as int), pat@),
{
    let mut l = lo;
    if pat.len() == 0 {
        return l;
    }
    while range_starts_with(cs, l, hi, pat)
        invariant
            lo <= l <= hi,
            hi <= cs@.len(),
            pat@.len() > 0,
            strip_prefix_all(cs@.subrange(lo as int, hi as int), pat@) == strip_prefix_all(cs@.subrange(l as int, hi as int), pat@),
        decreases hi - l,
    {
        assert(cs@.subrange(l as int, hi as int).skip(pat@.len() as int) =~= cs@.subrange(l + pat@.len(), hi as int));
        l = l + pat.len();
    }
    l
}

/// The bounds of `cs[lo..hi]` once trailing repetitions of `pat` are removed.
fn strip_suffix_range(cs: &Vec<char>, lo: usize, hi: usize, pat: &Vec<char>) -> (r: usize)
    requires
        lo <= hi <= cs@.len(),
    ensures
        lo <= r <= hi,
        cs@.subrange(lo as int, r as int) == strip_suffix_all(cs@.subrange(lo as int, hi as int), pat@),
{
    let mut h = hi;
    if pat.len() == 0 {
        return h;
    }
    while range_ends_with(cs, lo, h, pat)
        invariant
            lo <= h <= hi,
            hi <= cs@.len(),
            pat@.len() > 0,
            strip_suffix_all(cs@.subrange(lo as int, hi as int), pat@) == strip_suffix_all(cs@.subrange(lo as int, h as int), pat@),
        decreases h - lo,
    {
        assert(cs@.subrange(lo as int, h as int).take(h - lo - pat@.len()) =~= cs@.subrange(lo as int, h - pat@.len()));
        h = h - pat.len();
    }
    h
}

pub open spec fn invalid_endpoint() -> Seq<char> {
    "Invalid integration endpoint."@
}

/// The integration id in an endpoint path that ends with `suffix`.
pub open spec fn endpoint_id(path: Seq<char>, suffix: Seq<char>) -> Result<Seq<char>, Seq<char>> {
    let trimmed = strip_suffix_all(strip_prefix_all(path, "/api/integrations/"@), suffix);
    if trimmed.len() == 0 || trimmed == path {
        Err(invalid_endpoint())
    } else {
        Ok(trim_char(trimmed, '/'))
    }
}

/// The integration id in an endpoint path that ends with `suffix`.
pub fn extract_integration_id(path: &str, suffix: &str) -> (r: Result<String, String>)
    ensures
        match endpoint_id(path@, suffix@) {
            Ok(id) => r matches Ok(s) && s@ == id,
            Err(e) => r matches Err(m) && m@ == e,
        },
{
    let cs = chars_of(path);
    let prefix = chars_of("/api/integrations/");
    let sc = chars_of(suffix);
    let n = cs.len();
    assert(cs@.subrange(0, n as int) =~= cs@);
    let lo = strip_prefix_range(&cs, 0, n, &prefix);
    let hi = strip_suffix_range(&cs, lo, n, &sc);
    let ghost trimmed = cs@.subrange(lo as int, hi as int);
    if hi == lo {
        return Err(String::from_str("Invalid integration endpoint."));
    }
    if lo == 0 && hi == n {
        return Err(String::from_str("Invalid integration endpoint."));
    }
    assert(trimmed != path@) by {
        if trimmed == path@ {
            assert(trimmed.len() == n);
        }
    }
    let slash = chars_of("/");
    proof {
        reveal_strlit("/");
    }
    let lo2 = strip_prefix_range(&cs, lo, hi, &slash);
    let hi2 = strip_suffix_range(&cs, lo2, hi, &slash);
    assert(slash@ =~= seq!['/']);
    Ok(string_of_range(&cs, lo2, hi2))
}

/// The integration id of an endpoint path that names one integration and
/// nothing below it.
pub open spec fn exact_endpoint_id(path: Seq<char>) -> Result<Seq<char>, Seq<char>> {
    if !starts_with(path, "/api/integrations/"@) {
        Err(invalid_endpoint())
    } else {
        let id = trim_char(path.skip(18), '/');
        if id.len() == 0 || crate::text::index_of(id, '/') >= 0 {
            Err(invalid_endpoint())
        } else {
            Ok(id)
        }
    }
}

/// The integration id of an endpoint path `/api/integrations/<id>`.
pub fn extract_integration_id_exact(path: &str) -> (r: Result<String, String>)
    ensures
        match exact_endpoint_id(path@) {
            Ok(id) => r matches Ok(s) && s@ == id,
            Err(e) => r matches Err(m) && m@ == e,
        },
{
    proof {
        reveal_strlit("/api/integrations/");
        reveal_strlit("/");
    }
    let cs = chars_of(path);
    let n = cs.len();
    if !text_starts_with(&cs, "/api/integrations/") {
        return Err(String::from_str("Invalid integration endpoint."));
    }
    let slash = chars_of("/");
    assert(slash@ =~= seq!['/']);
    assert(cs@.subrange(18, n as int) =~= path@.skip(18));
    let lo = strip_prefix_range(&cs, 18, n, &slash);
    let hi = strip_suffix_range(&cs, lo, n, &slash);
    let id = string_of_range(&cs, lo, hi);
    let ic = chars_of(id.as_str());
    if ic.len() == 0 {
        return Err(String::from_str("Invalid integration endpoint."));
    }
    match crate::text::find_char(&ic, '/', 0) {
        Some(_) => {
            assert(ic@.skip(0) =~= ic@);
            Err(String::from_str("Invalid integration endpoint."))
        },
        None => {
            assert(ic@.skip(0) =~= ic@);
            Ok(id)
        },
    }
}


// ----- what `check` prints -----

/// The label a severity is printed with.
pub open spec fn severity_label(s: DriftSeverity) -> Seq<char> {
    match s {
        DriftSeverity::Informational => "info"@,
        DriftSeverity::Minor => "minor"@,
        DriftSeverity::Major => "major"@,
        DriftSeverity::Critical => "critical"@,
    }
}

/// The label a severity is printed with.
pub fn format_severity(severity: &DriftSeverity) -> (r: &'static str)
    ensures
        r@ == severity_label(*severity),
{
    match severity {
        DriftSeverity::Informational => "info",
        DriftSeverity::Minor => "minor",
        DriftSeverity::Major => "major",
        DriftSeverity::Critical => "critical",
    }
}

/// The name a change kind is printed with.
pub open spec fn kind_label(k: DriftKind) -> Seq<char> {
    match k {
        DriftKind::Added => "Added"@,
        DriftKind::Removed => "Removed"@,
        DriftKind::Changed => "Changed"@,
    }
}

fn format_kind(kind: &DriftKind) -> (r: &'static str)
    ensures
        r@ == kind_label(*kind),
{
    match kind {
        DriftKind::Added => "Added",
        DriftKind::Removed => "Removed",
        DriftKind::Changed => "Changed",
    }
}

/// The line that shows one drift entry.
pub open spec fn entry_line_text(e: EntryView) -> Seq<char> {
    "- ["@ + severity_label(e.severity) + " "@ + kind_label(e.kind) + "] "@ + e.path + ": "@ + e.message
}

/// The line that shows one drift entry.
pub fn entry_line(entry: &DriftEntry) -> (r: String)
    ensures
        r@ == entry_line_text(entry@),
{
    let mut r = String::from_str("- [");
    r.append(format_severity(&entry.severity));
    r.append(" ");
    r.append(format_kind(&entry.kind));
    r.append("] ");
    r.append(entry.path.as_str());
    r.append(": ");
    r.append(entry.message.as_str());
    r
}

/// What `check` prints: the summary, then one line per entry.
pub open spec fn check_output(es: Seq<EntryView>) -> Seq<Seq<char>> {
    seq![summary_text(es)] + Seq::new(es.len(), |i: int| entry_line_text(es[i]))
}

/// The lines `check` prints for a report.
pub fn check_report_lines(report: &DriftReport) -> (r: Vec<String>)
    ensures
        r@.len() == report.entries@.len() + 1,
        forall|i: int| 0 <= i < r@.len() ==> #[trigger] r@[i]@ == check_output(entries_view(report.entries@))[i],
{
    let ghost out = check_output(entries_view(report.entries@));
    let mut lines: Vec<String> = Vec::new();
    lines.push(report.summary());
    let mut i: usize = 0;
    while i < report.entries.len()
        invariant
            i <= report.entries@.len(),
            out == check_output(entries_view(report.entries@)),
            lines@.len() == i + 1,
            forall|k: int| 0 <= k < lines@.len() ==> #[trigger] lines@[k]@ == out[k],
        decreases report.entries@.len() - i,
    {
        let line = entry_line(&report.entries[i]);
        lines.push(line);
        i = i + 1;
    }
    lines
}

/// The exit status of `check`: 0 without drift, 2 with drift.
pub fn check_exit_code(report: &DriftReport) -> (r: i32)
    ensures
        r == (if report.entries@.len() == 0 { 0i32 } else { 2i32 }),
{
    if report.entries.len() == 0 {
        0
    } else {
        2
    }
}

} // verus!
