//! The probe of what making bytes durable costs: its command line, and what a latency
//! means for throughput.

use vstd::prelude::*;

use super::args;
use super::runner::is_text;
use crate::names;

verus! {

/// How many bytes each probed write has.
pub const BLOCK: usize = 4096;

/// How many samples are taken unless the command line says otherwise.
pub const DEFAULT_ITERS: usize = 1000;

/// How many samples at the beginning are discarded, as effects of cold caches.
pub const WARMUP: usize = 16;

/// What the probe is asked to do.
#[derive(Debug)]
pub struct ProbeConfig {
    /// How many samples to take.
    pub iters: usize,
    /// Where to write; nothing stands for the directory of temporary files.
    pub dir: Option<String>,
}

/// What a [`ProbeConfig`] says.
pub struct ProbeView {
    pub iters: usize,
    pub dir: Option<Seq<char>>,
}

impl View for ProbeConfig {
    type V = ProbeView;

    open spec fn view(&self) -> ProbeView {
        ProbeView {
            iters: self.iters,
            dir: match self.dir {
                Some(d) => Some(d@),
                None => None,
            },
        }
    }
}

/// What a command line of the probe that cannot be run asks for.
#[derive(Debug)]
pub enum ProbeStop {
    /// How the probe is used.
    Help,
    /// `--iters` needs a positive integer.
    BadIters,
    /// `--iters` must be greater than zero.
    ZeroIters,
    /// `--dir` needs a path.
    MissingDir,
    /// There is no such argument.
    UnknownArgument(String),
}

/// What a [`ProbeStop`] says.
pub enum StopView {
    Help,
    BadIters,
    ZeroIters,
    MissingDir,
    UnknownArgument(Seq<char>),
}

impl View for ProbeStop {
    type V = StopView;

    open spec fn view(&self) -> StopView {
        match self {
            ProbeStop::Help => StopView::Help,
            ProbeStop::BadIters => StopView::BadIters,
            ProbeStop::ZeroIters => StopView::ZeroIters,
            ProbeStop::MissingDir => StopView::MissingDir,
            ProbeStop::UnknownArgument(s) => StopView::UnknownArgument(s@),
        }
    }
}

/// What a command line says on top of `c`, up to the first argument that stops it.
pub open spec fn probe_set(line: Seq<Seq<char>>, c: ProbeView) -> std::result::Result<
    ProbeView,
    StopView,
>
    decreases line.len(),
{
    if line.len() == 0 {
        if c.iters == 0 {
            Err(StopView::ZeroIters)
        } else {
            Ok(c)
        }
    } else if line[0] == "--iters"@ {
        if line.len() == 1 {
            Err(StopView::BadIters)
        } else {
            match args::count_of(line[1]) {
                Some(iters) => probe_set(line.skip(2), ProbeView { iters, ..c }),
                None => Err(StopView::BadIters),
            }
        }
    } else if line[0] == "--dir"@ {
        if line.len() == 1 {
            Err(StopView::MissingDir)
        } else {
            probe_set(line.skip(2), ProbeView { dir: Some(line[1]), ..c })
        }
    } else if line[0] == "-h"@ || line[0] == "--help"@ {
        Err(StopView::Help)
    } else {
        Err(StopView::UnknownArgument(line[0]))
    }
}

impl ProbeConfig {
    /// Reads the probe's command line.
    pub fn from_args(line: &Vec<String>) -> (r: std::result::Result<ProbeConfig, ProbeStop>)
        ensures
            match probe_set(
                args::arg_views(line@),
                ProbeView { iters: DEFAULT_ITERS, dir: None },
            ) {
                Ok(c) => r is Ok && r->Ok_0@ == c,
                Err(e) => r is Err && r->Err_0@ == e,
            },
    {
        let ghost all = args::arg_views(line@);
        let ghost first = ProbeView { iters: DEFAULT_ITERS, dir: None };
        let mut c = ProbeConfig { iters: DEFAULT_ITERS, dir: None };
        let mut i: usize = 0;
        assert(all.skip(0) =~= all);
        while i < line.len()
            invariant
                i <= line@.len(),
                all == args::arg_views(line@),
                probe_set(all, first) == probe_set(all.skip(i as int), c@),
                first == (ProbeView { iters: DEFAULT_ITERS, dir: None }),
            decreases line.len() - i,
        {
            let ghost left = all.skip(i as int);
            let arg = &line[i];
            assert(left[0] == arg@);
            let last = line.len() - i < 2;
            proof {
                if !last {
                    assert(left[1] == line@[i + 1]@);
                    assert(left.skip(2) =~= all.skip(i + 2));
                }
            }
            if is_text(arg, "--iters") {
                if last {
                    return Err(ProbeStop::BadIters);
                }
                match names::parse_id(line[i + 1].as_str().as_bytes()) {
                    Some(n) => {
                        if n > usize::MAX as u64 {
                            return Err(ProbeStop::BadIters);
                        }
                        c.iters = n as usize;
                    },
                    None => {
                        return Err(ProbeStop::BadIters);
                    },
                }
            } else if is_text(arg, "--dir") {
                if last {
                    return Err(ProbeStop::MissingDir);
                }
                c.dir = Some(line[i + 1].clone());
            } else if is_text(arg, "-h") || is_text(arg, "--help") {
                return Err(ProbeStop::Help);
            } else {
                return Err(ProbeStop::UnknownArgument(arg.clone()));
            }
            i = i + 2;
        }
        if c.iters == 0 {
            return Err(ProbeStop::ZeroIters);
        }
        Ok(c)
    }
}

/// How many durable writes fit into a second if each takes `ns` nanoseconds; 0 if a
/// write takes no time.
pub fn ops_per_sec(ns: u64) -> (n: u64)
    ensures
        n == (if ns == 0 {
            0
        } else {
            1_000_000_000u64 / ns
        }),
{
    if ns == 0 {
        0
    } else {
        1_000_000_000 / ns
    }
}

/// How the probe's command line is read: from the front, each flag with the value behind it, up
/// to what stops it; and no probe has no iterations.
pub proof fn lemma_probe_line(line: Seq<Seq<char>>, c: ProbeView, value: Seq<char>)
    ensures
        c.iters > 0 ==> probe_set(Seq::empty(), c) == Ok::<ProbeView, StopView>(c),
        c.iters == 0 ==> probe_set(Seq::empty(), c) == Err::<ProbeView, StopView>(
            StopView::ZeroIters,
        ),
        args::number_of(value) matches Some(n) && n <= usize::MAX ==> probe_set(
            seq!["--iters"@, value] + line,
            c,
        ) == probe_set(line, ProbeView { iters: args::number_of(value)->0 as usize, ..c }),
        args::number_of(value) is None ==> probe_set(seq!["--iters"@, value] + line, c) == Err::<
            ProbeView,
            StopView,
        >(StopView::BadIters),
        probe_set(seq!["--dir"@, value] + line, c) == probe_set(
            line,
            ProbeView { dir: Some(value), ..c },
        ),
        probe_set(seq!["--help"@] + line, c) == Err::<ProbeView, StopView>(StopView::Help),
        probe_set(seq!["-h"@] + line, c) == Err::<ProbeView, StopView>(StopView::Help),
        value != "--iters"@ && value != "--dir"@ && value != "-h"@ && value != "--help"@ ==> probe_set(
            seq![value] + line,
            c,
        ) == Err::<ProbeView, StopView>(StopView::UnknownArgument(value)),
{
    reveal_strlit("--iters");
    reveal_strlit("--dir");
    reveal_strlit("-h");
    reveal_strlit("--help");
    assert("--iters"@.len() == 7 && "--dir"@.len() == 5 && "-h"@.len() == 2 && "--help"@.len() == 6);
    assert((seq!["--iters"@, value] + line).skip(2) =~= line);
    assert((seq!["--dir"@, value] + line).skip(2) =~= line);
}

} // verus!
