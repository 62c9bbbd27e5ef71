//! The command line of the benchmark.

use vstd::prelude::*;
use vstd::utf8;

use super::runner::is_text;
use crate::names;
use crate::wal::Durability;

verus! {

/// Which engine to benchmark.
#[derive(Debug, Clone, Copy, PartialEq, Eq, Structural)]
pub enum Engine {
    /// This store.
    Accretion,
    /// The sled store.
    Sled,
}

/// Parsed command-line configuration.
#[derive(Debug)]
pub struct Config {
    /// Which phases to run.
    pub workload: String,
    /// Which engine to run them on.
    pub engine: Engine,
    /// The durability mode.
    pub durability: Durability,
    /// Number of keys.
    pub keys: u64,
    /// Number of point reads and scans.
    pub reads: usize,
    /// Number of worker threads.
    pub concurrency: usize,
    /// Size at which a memtable freezes.
    pub memtable_bytes: usize,
    /// Where the data goes.
    pub dir: Option<String>,
    /// Seed of the random orders.
    pub seed: u64,
}

/// What a [`Config`] says.
pub struct ConfigView {
    pub workload: Seq<char>,
    pub engine: Engine,
    pub durability: Durability,
    pub keys: u64,
    pub reads: usize,
    pub concurrency: usize,
    pub memtable_bytes: usize,
    pub dir: Option<Seq<char>>,
    pub seed: u64,
}

impl View for Config {
    type V = ConfigView;

    open spec fn view(&self) -> ConfigView {
        ConfigView {
            workload: self.workload@,
            engine: self.engine,
            durability: self.durability,
            keys: self.keys,
            reads: self.reads,
            concurrency: self.concurrency,
            memtable_bytes: self.memtable_bytes,
            dir: match self.dir {
                Some(d) => Some(d@),
                None => None,
            },
            seed: self.seed,
        }
    }
}

/// What is wrong with a command line.
#[derive(Debug)]
pub enum ArgError {
    /// No durability mode has this name.
    UnknownDurability(String),
    /// No engine has this name.
    UnknownEngine(String),
    /// There is no such flag.
    UnknownFlag(String),
    /// The flag needs a value.
    MissingValue(String),
    /// The flag needs a number.
    BadNumber(String),
}

/// What an [`ArgError`] says.
pub enum ArgErrorView {
    UnknownDurability(Seq<char>),
    UnknownEngine(Seq<char>),
    UnknownFlag(Seq<char>),
    MissingValue(Seq<char>),
    BadNumber(Seq<char>),
}

impl View for ArgError {
    type V = ArgErrorView;

    open spec fn view(&self) -> ArgErrorView {
        match self {
            ArgError::UnknownDurability(s) => ArgErrorView::UnknownDurability(s@),
            ArgError::UnknownEngine(s) => ArgErrorView::UnknownEngine(s@),
            ArgError::UnknownFlag(s) => ArgErrorView::UnknownFlag(s@),
            ArgError::MissingValue(s) => ArgErrorView::MissingValue(s@),
            ArgError::BadNumber(s) => ArgErrorView::BadNumber(s@),
        }
    }
}

/// The views of some arguments.
pub open spec fn arg_views(args: Seq<String>) -> Seq<Seq<char>> {
    Seq::new(args.len(), |i: int| args[i]@)
}

/// The configuration without any arguments. No reads stands for as many as keys.
pub open spec fn default_view() -> ConfigView {
    ConfigView {
        workload: "all"@,
        engine: Engine::Accretion,
        durability: Durability::GroupCommit,
        keys: 100_000,
        reads: 0,
        concurrency: 1,
        memtable_bytes: 4_194_304,
        dir: None,
        seed: 0x5eed,
    }
}

impl Default for Config {
    fn default() -> (c: Self)
        ensures
            c@ == default_view(),
    {
        Config {
            workload: String::from_str("all"),
            engine: Engine::Accretion,
            durability: Durability::GroupCommit,
            keys: 100_000,
            reads: 0,
            concurrency: 1,
            memtable_bytes: 4_194_304,
            dir: None,
            seed: 0x5eed,
        }
    }
}

/// The durability mode with a name.
pub open spec fn durability_of(s: Seq<char>) -> Option<Durability> {
    if s == "always"@ {
        Some(Durability::Always)
    } else if s == "group"@ || s == "groupcommit"@ || s == "group-commit"@ {
        Some(Durability::GroupCommit)
    } else if s == "osbuffered"@ || s == "buffered"@ || s == "os"@ {
        Some(Durability::OsBuffered)
    } else {
        None
    }
}

/// The engine with a name.
pub open spec fn engine_of(s: Seq<char>) -> Option<Engine> {
    if s == "accretion"@ || s == "accretion-db"@ {
        Some(Engine::Accretion)
    } else if s == "sled"@ {
        Some(Engine::Sled)
    } else {
        None
    }
}

/// The number that a string writes.
pub open spec fn number_of(s: Seq<char>) -> Option<u64> {
    names::parsed(utf8::encode_utf8(s))
}

/// The number that a string writes, if it can count things in memory.
pub open spec fn count_of(s: Seq<char>) -> Option<usize> {
    match number_of(s) {
        Some(n) => if n <= usize::MAX {
            Some(n as usize)
        } else {
            None
        },
        None => None,
    }
}

/// The configuration with a flag set to a value; nothing if there is no such flag.
pub open spec fn with_flag(c: ConfigView, flag: Seq<char>, value: Seq<char>) -> Option<
    std::result::Result<ConfigView, ArgErrorView>,
> {
    if flag == "--engine"@ {
        Some(
            match engine_of(value) {
                Some(engine) => Ok(ConfigView { engine, ..c }),
                None => Err(ArgErrorView::UnknownEngine(value)),
            },
        )
    } else if flag == "--durability"@ {
        Some(
            match durability_of(value) {
                Some(durability) => Ok(ConfigView { durability, ..c }),
                None => Err(ArgErrorView::UnknownDurability(value)),
            },
        )
    } else if flag == "--keys"@ {
        Some(
            match number_of(value) {
                Some(keys) => Ok(ConfigView { keys, ..c }),
                None => Err(ArgErrorView::BadNumber(flag)),
            },
        )
    } else if flag == "--reads"@ {
        Some(
            match count_of(value) {
                Some(reads) => Ok(ConfigView { reads, ..c }),
                None => Err(ArgErrorView::BadNumber(flag)),
            },
        )
    } else if flag == "--concurrency"@ {
        Some(
            match count_of(value) {
                Some(concurrency) => Ok(ConfigView { concurrency, ..c }),
                None => Err(ArgErrorView::BadNumber(flag)),
            },
        )
    } else if flag == "--memtable-bytes"@ {
        Some(
            match count_of(value) {
                Some(memtable_bytes) => Ok(ConfigView { memtable_bytes, ..c }),
                None => Err(ArgErrorView::BadNumber(flag)),
            },
        )
    } else if flag == "--dir"@ {
        Some(Ok(ConfigView { dir: Some(value), ..c }))
    } else if flag == "--seed"@ {
        Some(
            match number_of(value) {
                Some(seed) => Ok(ConfigView { seed, ..c }),
                None => Err(ArgErrorView::BadNumber(flag)),
            },
        )
    } else {
        None
    }
}

/// The configuration with no reads made as many as keys.
pub open spec fn completed(c: ConfigView) -> ConfigView {
    if c.reads == 0 {
        ConfigView { reads: c.keys as usize, ..c }
    } else {
        c
    }
}

/// The configuration with all flags set, or the first thing that is wrong.
pub open spec fn flags_set(args: Seq<Seq<char>>, c: ConfigView) -> std::result::Result<
    ConfigView,
    ArgErrorView,
>
    decreases args.len(),
{
    if args.len() == 0 {
        Ok(completed(c))
    } else if with_flag(c, args[0], args[0]) is None {
        Err(ArgErrorView::UnknownFlag(args[0]))
    } else if args.len() == 1 {
        Err(ArgErrorView::MissingValue(args[0]))
    } else {
        match with_flag(c, args[0], args[1])->0 {
            Ok(next) => flags_set(args.skip(2), next),
            Err(e) => Err(e),
        }
    }
}

/// The argument begins as a flag does.
pub open spec fn is_flag(s: Seq<char>) -> bool {
    let bytes = utf8::encode_utf8(s);
    bytes.len() >= 2 && bytes[0] == 45 && bytes[1] == 45
}

/// What a command line says: the first argument, unless it is a flag, is the workload.
pub open spec fn parsed_args(args: Seq<Seq<char>>) -> std::result::Result<
    ConfigView,
    ArgErrorView,
> {
    if args.len() > 0 && !is_flag(args[0]) {
        flags_set(args.skip(1), ConfigView { workload: args[0], ..default_view() })
    } else {
        flags_set(args, default_view())
    }
}

/// Reads the name of a durability mode.
pub fn parse_durability(s: &String) -> (r: std::result::Result<Durability, ArgError>)
    ensures
        match durability_of(s@) {
            Some(d) => r is Ok && r->Ok_0 == d,
            None => r is Err && r->Err_0@ == ArgErrorView::UnknownDurability(s@),
        },
{
    if is_text(s, "always") {
        return Ok(Durability::Always);
    }
    if is_text(s, "group") || is_text(s, "groupcommit") || is_text(s, "group-commit") {
        return Ok(Durability::GroupCommit);
    }
    if is_text(s, "osbuffered") || is_text(s, "buffered") || is_text(s, "os") {
        return Ok(Durability::OsBuffered);
    }
    Err(ArgError::UnknownDurability(s.clone()))
}

/// Reads the name of an engine.
fn parse_engine(s: &String) -> (r: std::result::Result<Engine, ArgError>)
    ensures
        match engine_of(s@) {
            Some(e) => r is Ok && r->Ok_0 == e,
            None => r is Err && r->Err_0@ == ArgErrorView::UnknownEngine(s@),
        },
{
    if is_text(s, "accretion") || is_text(s, "accretion-db") {
        return Ok(Engine::Accretion);
    }
    if is_text(s, "sled") {
        return Ok(Engine::Sled);
    }
    Err(ArgError::UnknownEngine(s.clone()))
}

/// Reads a number.
fn parse_number(flag: &String, s: &String) -> (r: std::result::Result<u64, ArgError>)
    ensures
        match number_of(s@) {
            Some(n) => r is Ok && r->Ok_0 == n,
            None => r is Err && r->Err_0@ == ArgErrorView::BadNumber(flag@),
        },
{
    match names::parse_id(s.as_str().as_bytes()) {
        Some(n) => Ok(n),
        None => Err(ArgError::BadNumber(flag.clone())),
    }
}

/// Reads a number of things in memory.
fn parse_count(flag: &String, s: &String) -> (r: std::result::Result<usize, ArgError>)
    ensures
        match count_of(s@) {
            Some(n) => r is Ok && r->Ok_0 == n,
            None => r is Err && r->Err_0@ == ArgErrorView::BadNumber(flag@),
        },
{
    match parse_number(flag, s) {
        Ok(n) => {
            if n <= usize::MAX as u64 {
                Ok(n as usize)
            } else {
                Err(ArgError::BadNumber(flag.clone()))
            }
        },
        Err(e) => Err(e),
    }
}

/// Whether there is such a flag.
fn knows_flag(flag: &String) -> (r: bool)
    ensures
        forall|c: ConfigView, value: Seq<char>|
            r == (#[trigger] with_flag(c, flag@, value)) is Some,
{
    is_text(flag, "--engine") || is_text(flag, "--durability") || is_text(flag, "--keys")
        || is_text(flag, "--reads") || is_text(flag, "--concurrency") || is_text(
        flag,
        "--memtable-bytes",
    ) || is_text(flag, "--dir") || is_text(flag, "--seed")
}

/// Sets a flag to a value.
fn set_flag(c: Config, flag: &String, value: &String) -> (r: std::result::Result<Config, ArgError>)
    requires
        with_flag(c@, flag@, value@) is Some,
    ensures
        match with_flag(c@, flag@, value@)->0 {
            Ok(next) => r is Ok && r->Ok_0@ == next,
            Err(e) => r is Err && r->Err_0@ == e,
        },
{
    let mut c = c;
    if is_text(flag, "--engine") {
        match parse_engine(value) {
            Ok(engine) => {
                c.engine = engine;
                Ok(c)
            },
            Err(e) => Err(e),
        }
    } else if is_text(flag, "--durability") {
        match parse_durability(value) {
            Ok(durability) => {
                c.durability = durability;
                Ok(c)
            },
            Err(e) => Err(e),
        }
    } else if is_text(flag, "--keys") {
        match parse_number(flag, value) {
            Ok(keys) => {
                c.keys = keys;
                Ok(c)
            },
            Err(e) => Err(e),
        }
    } else if is_text(flag, "--reads") {
        match parse_count(flag, value) {
            Ok(reads) => {
                c.reads = reads;
                Ok(c)
            },
            Err(e) => Err(e),
        }
    } else if is_text(flag, "--concurrency") {
        match parse_count(flag, value) {
            Ok(concurrency) => {
                c.concurrency = concurrency;
                Ok(c)
            },
            Err(e) => Err(e),
        }
    } else if is_text(flag, "--memtable-bytes") {
        match parse_count(flag, value) {
            Ok(memtable_bytes) => {
                c.memtable_bytes = memtable_bytes;
                Ok(c)
            },
            Err(e) => Err(e),
        }
    } else if is_text(flag, "--dir") {
        c.dir = Some(value.clone());
        Ok(c)
    } else {
        match parse_number(flag, value) {
            Ok(seed) => {
                c.seed = seed;
                Ok(c)
            },
            Err(e) => Err(e),
        }
    }
}

/// Sets the flags in `args`, from `from` on.
pub fn parse_flags(args: &Vec<String>, from: usize, c: Config) -> (r: std::result::Result<
    Config,
    ArgError,
>)
    requires
        from <= args@.len(),
    ensures
        match flags_set(arg_views(args@).skip(from as int), c@) {
            Ok(done) => r is Ok && r->Ok_0@ == done,
            Err(e) => r is Err && r->Err_0@ == e,
        },
{
    let ghost all = arg_views(args@);
    let mut now = c;
    let mut i: usize = from;
    while i < args.len()
        invariant
            from <= i <= args@.len(),
            all == arg_views(args@),
            flags_set(all.skip(from as int), c@) == flags_set(all.skip(i as int), now@),
        decreases args.len() - i,
    {
        let flag = &args[i];
        let ghost left = all.skip(i as int);
        assert(left[0] == flag@);
        if !knows_flag(flag) {
            assert(with_flag(now@, flag@, flag@) is None);
            return Err(ArgError::UnknownFlag(flag.clone()));
        }
        assert(with_flag(now@, flag@, flag@) is Some);
        if args.len() - i < 2 {
            return Err(ArgError::MissingValue(flag.clone()));
        }
        let value = &args[i + 1];
        proof {
            assert(left[1] == value@);
            assert(left.skip(2) =~= all.skip(i + 2));
            assert(with_flag(now@, flag@, value@) is Some);
        }
        now = match set_flag(now, flag, value) {
            Ok(next) => next,
            Err(e) => {
                return Err(e);
            },
        };
        i = i + 2;
    }
    if now.reads == 0 {
        now.reads = now.keys as usize;
    }
    Ok(now)
}

/// Whether the argument begins as a flag does.
fn begins_flag(s: &String) -> (r: bool)
    ensures
        r == is_flag(s@),
{
    let bytes: &[u8] = s.as_str().as_bytes();
    bytes.len() >= 2 && bytes[0] == 45 && bytes[1] == 45
}

/// Reads the command line.
pub fn parse_args(args: &Vec<String>) -> (r: std::result::Result<Config, ArgError>)
    ensures
        match parsed_args(arg_views(args@)) {
            Ok(done) => r is Ok && r->Ok_0@ == done,
            Err(e) => r is Err && r->Err_0@ == e,
        },
{
    let mut c = Config::default();
    let ghost all = arg_views(args@);
    assert(all.skip(0) =~= all);
    if args.len() > 0 && !begins_flag(&args[0]) {
        assert(all[0] == args@[0]@);
        c.workload = args[0].clone();
        return parse_flags(args, 1, c);
    }
    proof {
        if args@.len() > 0 {
            assert(all[0] == args@[0]@);
        }
    }
    parse_flags(args, 0, c)
}

/// What each flag does: it sets the one thing that it names to what its value says, and leaves
/// the rest as it is, or it is refused where the value says nothing of the kind.
pub proof fn lemma_flags(c: ConfigView, value: Seq<char>)
    ensures
        with_flag(c, "--keys"@, value) == Some(
            match number_of(value) {
                Some(n) => Ok::<ConfigView, ArgErrorView>(ConfigView { keys: n, ..c }),
                None => Err(ArgErrorView::BadNumber("--keys"@)),
            },
        ),
        with_flag(c, "--seed"@, value) == Some(
            match number_of(value) {
                Some(n) => Ok::<ConfigView, ArgErrorView>(ConfigView { seed: n, ..c }),
                None => Err(ArgErrorView::BadNumber("--seed"@)),
            },
        ),
        with_flag(c, "--dir"@, value) == Some(
            Ok::<ConfigView, ArgErrorView>(ConfigView { dir: Some(value), ..c }),
        ),
        with_flag(c, "--reads"@, value) == Some(
            match number_of(value) {
                Some(n) if n <= usize::MAX => Ok::<ConfigView, ArgErrorView>(
                    ConfigView { reads: n as usize, ..c },
                ),
                _ => Err(ArgErrorView::BadNumber("--reads"@)),
            },
        ),
        with_flag(c, "--concurrency"@, value) == Some(
            match number_of(value) {
                Some(n) if n <= usize::MAX => Ok::<ConfigView, ArgErrorView>(
                    ConfigView { concurrency: n as usize, ..c },
                ),
                _ => Err(ArgErrorView::BadNumber("--concurrency"@)),
            },
        ),
        with_flag(c, "--memtable-bytes"@, value) == Some(
            match number_of(value) {
                Some(n) if n <= usize::MAX => Ok::<ConfigView, ArgErrorView>(
                    ConfigView { memtable_bytes: n as usize, ..c },
                ),
                _ => Err(ArgErrorView::BadNumber("--memtable-bytes"@)),
            },
        ),
        with_flag(c, "--durability"@, value) == Some(
            match durability_of(value) {
                Some(durability) => Ok::<ConfigView, ArgErrorView>(
                    ConfigView { durability, ..c },
                ),
                None => Err(ArgErrorView::UnknownDurability(value)),
            },
        ),
        with_flag(c, "--engine"@, value) == Some(
            match engine_of(value) {
                Some(engine) => Ok::<ConfigView, ArgErrorView>(ConfigView { engine, ..c }),
                None => Err(ArgErrorView::UnknownEngine(value)),
            },
        ),
{
    reveal_strlit("--engine");
    reveal_strlit("--durability");
    reveal_strlit("--keys");
    reveal_strlit("--reads");
    reveal_strlit("--concurrency");
    reveal_strlit("--memtable-bytes");
    reveal_strlit("--dir");
    reveal_strlit("--seed");
    assert("--engine"@.len() == 8 && "--durability"@.len() == 12 && "--keys"@.len() == 6
        && "--reads"@.len() == 7 && "--concurrency"@.len() == 13 && "--memtable-bytes"@.len() == 16
        && "--dir"@.len() == 5 && "--seed"@.len() == 6);
    assert("--keys"@[2] == 'k' && "--seed"@[2] == 's');
}

/// How a command line is read: flag by flag, each with its value behind it, from the first to
/// the last; it is refused at the first flag that is unknown, has no value, or refuses its
/// value. Where the number of reads is left open or is 0 in the end, it is that of keys.
pub proof fn lemma_flags_in_turn(args: Seq<Seq<char>>, c: ConfigView, flag: Seq<char>, value: Seq<char>)
    ensures
        flags_set(Seq::empty(), c) matches Ok(d) && d == (ConfigView { reads: d.reads, ..c }) && (
        c.reads != 0 ==> d.reads == c.reads) && (c.reads == 0 ==> d.reads == c.keys as usize),
        with_flag(c, flag, flag) is None ==> flags_set(seq![flag] + args, c) == Err::<
            ConfigView,
            ArgErrorView,
        >(ArgErrorView::UnknownFlag(flag)),
        with_flag(c, flag, flag) is Some ==> flags_set(seq![flag], c) == Err::<
            ConfigView,
            ArgErrorView,
        >(ArgErrorView::MissingValue(flag)),
        with_flag(c, flag, flag) is Some && with_flag(c, flag, value) is Some ==> flags_set(
            seq![flag, value] + args,
            c,
        ) == match with_flag(c, flag, value)->0 {
            Ok(next) => flags_set(args, next),
            Err(e) => Err::<ConfigView, ArgErrorView>(e),
        },
{
    assert((seq![flag, value] + args).skip(2) =~= args);
}

/// What numbers are: arguments whose bytes are decimal digits that a `u64` can hold.
pub proof fn lemma_numbers(s: Seq<char>)
    requires
        names::all_digits(utf8::encode_utf8(s)),
        utf8::encode_utf8(s).len() > 0,
    ensures
        names::decimal(utf8::encode_utf8(s)) <= u64::MAX ==> number_of(s) == Some(
            names::decimal(utf8::encode_utf8(s)) as u64,
        ),
        names::decimal(utf8::encode_utf8(s)) > u64::MAX ==> number_of(s) is None,
{
    names::lemma_parsed(utf8::encode_utf8(s), 0);
}

/// What the first argument is: the name of the workload, unless it begins with two dashes;
/// without one the workload is the default, and every other setting is so too until a flag sets
/// it.
pub proof fn lemma_first_argument(first: Seq<char>, args: Seq<Seq<char>>)
    ensures
        ({
            let bytes = utf8::encode_utf8(first);
            let dashed = bytes.len() >= 2 && bytes[0] == 45 && bytes[1] == 45;
            &&& !dashed ==> parsed_args(seq![first] + args) == flags_set(
                args,
                ConfigView { workload: first, ..default_view() },
            )
            &&& dashed ==> parsed_args(seq![first] + args) == flags_set(
                seq![first] + args,
                default_view(),
            )
        }),
        parsed_args(Seq::empty()) == flags_set(Seq::empty(), default_view()),
        default_view().keys == 100_000 && default_view().reads == 0 && default_view().concurrency == 1,
        default_view().memtable_bytes == 4 * 1024 * 1024 && default_view().seed == 0x5eed,
{
    assert((seq![first] + args).skip(1) =~= args);
}

/// Which names stand for a durability mode or an engine, and for which; no other name does.
pub proof fn lemma_named(s: Seq<char>)
    ensures
        durability_of(s) == Some(Durability::Always) <==> s == "always"@,
        durability_of(s) == Some(Durability::GroupCommit) <==> s == "group"@ || s == "groupcommit"@
            || s == "group-commit"@,
        durability_of(s) == Some(Durability::OsBuffered) <==> s == "osbuffered"@ || s == "buffered"@
            || s == "os"@,
        engine_of(s) == Some(Engine::Accretion) <==> s == "accretion"@ || s == "accretion-db"@,
        engine_of(s) == Some(Engine::Sled) <==> s == "sled"@,
{
    reveal_strlit("always");
    reveal_strlit("group");
    reveal_strlit("groupcommit");
    reveal_strlit("group-commit");
    reveal_strlit("osbuffered");
    reveal_strlit("buffered");
    reveal_strlit("os");
    reveal_strlit("accretion");
    reveal_strlit("accretion-db");
    reveal_strlit("sled");
    assert("always"@.len() == 6 && "group"@.len() == 5 && "groupcommit"@.len() == 11
        && "group-commit"@.len() == 12 && "osbuffered"@.len() == 10 && "buffered"@.len() == 8
        && "os"@.len() == 2 && "accretion"@.len() == 9 && "accretion-db"@.len() == 12
        && "sled"@.len() == 4);
}

} // verus!
