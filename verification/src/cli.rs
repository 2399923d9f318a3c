//! The command line of the inference program.

use vstd::prelude::*;
use vstd::string::*;
use crate::text::{
    concat, decimal, law_numbers_round_trip, parse_number, parsed_number, same_text,
};

verus! {

/// What a run of the inference program works with.
#[derive(Debug)]
pub struct RunConfig {
    pub model_dir: String,
    pub features_path: String,
    pub output_path: String,
    pub interval_s: u64,
    pub single_shot: bool,
}

/// What the command line asks for.
#[derive(Debug)]
pub enum Invocation {
    Help,
    Run(RunConfig),
}

/// Whether an argument is among the arguments.
pub open spec fn given(args: Seq<Seq<char>>, wanted: Seq<char>) -> bool {
    exists|i: int| 0 <= i < args.len() && #[trigger] args[i] == wanted
}

/// The argument that follows the first occurrence of an option, or a default
/// where the option is not there or is the last argument.
pub open spec fn option_value(
    args: Seq<Seq<char>>,
    option: Seq<char>,
    default: Seq<char>,
) -> Seq<char>
    decreases args.len(),
{
    if args.len() < 2 {
        default
    } else if args[0] == option {
        args[1]
    } else {
        option_value(args.drop_first(), option, default)
    }
}

/// Whether an argument is an option that the next argument belongs to.
pub open spec fn takes_value(word: Seq<char>) -> bool {
    word == "--model-dir"@ || word == "--input"@ || word == "--output"@
}

/// Whether some arguments are given by name.
pub open spec fn named(args: Seq<Seq<char>>) -> bool {
    given(args, "--model-dir"@) || given(args, "--input"@) || given(args, "--output"@)
}

/// Whether there is an argument that counts by its place. Beside arguments that
/// are given by name, options and what belongs to them do not.
pub open spec fn counts_by_place(args: Seq<Seq<char>>, place: int) -> bool {
    &&& 0 < place < args.len()
    &&& named(args) ==> !takes_value(args[place]) && args[place] != "--once"@ && !takes_value(
        args[place - 1],
    )
}

/// The argument at a place, or a default where none counts there.
pub open spec fn argument(args: Seq<Seq<char>>, place: int, default: Seq<char>) -> Seq<char> {
    if counts_by_place(args, place) {
        args[place]
    } else {
        default
    }
}

/// Seconds between readings: the third argument, where it is a number, or one.
pub open spec fn interval(args: Seq<Seq<char>>) -> u64 {
    if counts_by_place(args, 3) {
        match parsed_number(args[3]) {
            Some(seconds) => seconds,
            None => 1,
        }
    } else {
        1
    }
}

impl RunConfig {
    /// Whether this is the run that the arguments ask for, the program's own
    /// name among them in the first place. By their places, they are the
    /// directory of the weights, the directory that holds the files, and the
    /// seconds between readings. By name, the directory of the weights and the
    /// files to read and to write can be given, which then take precedence.
    pub open spec fn follows(&self, args: Seq<Seq<char>>) -> bool {
        let workspace = argument(args, 2, "."@);
        &&& self.single_shot == given(args, "--once"@)
        &&& self.model_dir@ == option_value(
            args,
            "--model-dir"@,
            argument(args, 1, "./weights"@),
        )
        &&& self.features_path@ == option_value(
            args,
            "--input"@,
            workspace + "/quant/burn_features_cache.json"@,
        )
        &&& self.output_path@ == option_value(
            args,
            "--output"@,
            workspace + "/burn_brain_signal.json"@,
        )
        &&& self.interval_s == interval(args)
    }
}

/// The texts of the arguments.
pub open spec fn texts(args: Seq<String>) -> Seq<Seq<char>> {
    args.map_values(|a: String| a@)
}

fn is_given(args: &Vec<String>, wanted: &str) -> (yes: bool)
    ensures
        yes == given(texts(args@), wanted@),
{
    let mut i: usize = 0;
    while i < args.len()
        invariant
            i <= args.len(),
            forall|j: int| 0 <= j < i ==> (#[trigger] texts(args@)[j]) != wanted@,
        decreases args.len() - i,
    {
        if same_text(args[i].as_str(), wanted) {
            assert(texts(args@)[i as int] == wanted@);
            return true;
        }
        i = i + 1;
    }
    false
}

fn value_of(args: &Vec<String>, option: &str, default: &str) -> (value: String)
    ensures
        value@ == option_value(texts(args@), option@, default@),
{
    let ghost all = texts(args@);
    let mut i: usize = 0;
    assert(all.skip(0) =~= all);
    while args.len() - i > 1
        invariant
            i <= args.len(),
            all == texts(args@),
            option_value(all.skip(i as int), option@, default@) == option_value(
                all,
                option@,
                default@,
            ),
        decreases args.len() - i,
    {
        if same_text(args[i].as_str(), option) {
            return args[i + 1].clone();
        }
        assert(all.skip(i as int).drop_first() =~= all.skip(i + 1));
        i = i + 1;
    }
    default.to_owned()
}

fn does_take_value(word: &str) -> (yes: bool)
    ensures
        yes == takes_value(word@),
{
    same_text(word, "--model-dir") || same_text(word, "--input") || same_text(word, "--output")
}

fn does_count(args: &Vec<String>, place: usize) -> (yes: bool)
    requires
        place > 0,
    ensures
        yes == counts_by_place(texts(args@), place as int),
{
    if place >= args.len() {
        return false;
    }
    assert(texts(args@)[place as int] == args[place as int]@);
    assert(texts(args@)[place - 1] == args[place - 1]@);
    let is_named: bool = is_given(args, "--model-dir") || is_given(args, "--input") || is_given(
        args,
        "--output",
    );
    !is_named || !(does_take_value(args[place].as_str()) || same_text(
        args[place].as_str(),
        "--once",
    ) || does_take_value(args[place - 1].as_str()))
}

fn argument_at(args: &Vec<String>, place: usize, default: &str) -> (value: String)
    requires
        place > 0,
    ensures
        value@ == argument(texts(args@), place as int, default@),
{
    if does_count(args, place) {
        args[place].clone()
    } else {
        default.to_owned()
    }
}

/// Reads the command line, the program's own name in the first place.
pub fn parse_args(args: &Vec<String>) -> (invocation: Invocation)
    ensures
        match invocation {
            Invocation::Help => given(texts(args@), "--help"@),
            Invocation::Run(config) => !given(texts(args@), "--help"@) && config.follows(
                texts(args@),
            ),
        },
{
    if is_given(args, "--help") {
        return Invocation::Help;
    }
    let model_dir: String = argument_at(args, 1, "./weights");
    let workspace: String = argument_at(args, 2, ".");
    let features_path: String = concat(workspace.as_str(), "/quant/burn_features_cache.json");
    let output_path: String = concat(workspace.as_str(), "/burn_brain_signal.json");
    let interval_s: u64 = if does_count(args, 3) {
        match parse_number(args[3].as_str()) {
            Some(seconds) => seconds,
            None => 1,
        }
    } else {
        1
    };
    Invocation::Run(
        RunConfig {
            model_dir: value_of(args, "--model-dir", model_dir.as_str()),
            features_path: value_of(args, "--input", features_path.as_str()),
            output_path: value_of(args, "--output", output_path.as_str()),
            interval_s,
            single_shot: is_given(args, "--once"),
        },
    )
}

/// The archive of weights in a directory.
pub fn archive_path(model_dir: &str) -> (path: String)
    ensures
        path@ == model_dir@ + "/swarm_v2_beast.safetensors"@,
{
    concat(model_dir, "/swarm_v2_beast.safetensors")
}

/// The means of the features in a directory of weights.
pub fn means_path(model_dir: &str) -> (path: String)
    ensures
        path@ == model_dir@ + "/norm_means.npy"@,
{
    concat(model_dir, "/norm_means.npy")
}

/// The deviations of the features in a directory of weights.
pub fn deviations_path(model_dir: &str) -> (path: String)
    ensures
        path@ == model_dir@ + "/norm_stds.npy"@,
{
    concat(model_dir, "/norm_stds.npy")
}

/// Without named arguments, the places count: the directory of the weights, the
/// directory of the files, and the seconds between readings, each with a default
/// where there are fewer arguments.
pub proof fn law_arguments_count_by_place(config: RunConfig, args: Seq<Seq<char>>)
    requires
        config.follows(args),
        forall|i: int|
            0 <= i < args.len() ==> #[trigger] args[i] != "--model-dir"@ && args[i] != "--input"@
                && args[i] != "--output"@,
    ensures
        args.len() > 1 ==> config.model_dir@ == args[1],
        args.len() <= 1 ==> config.model_dir@ == "./weights"@,
        args.len() > 2 ==> config.features_path@ == args[2] + "/quant/burn_features_cache.json"@
            && config.output_path@ == args[2] + "/burn_brain_signal.json"@,
        args.len() <= 2 ==> config.features_path@ == "."@ + "/quant/burn_features_cache.json"@
            && config.output_path@ == "."@ + "/burn_brain_signal.json"@,
        args.len() > 3 ==> config.interval_s == (match parsed_number(args[3]) {
            Some(seconds) => seconds,
            None => 1,
        }),
        args.len() <= 3 ==> config.interval_s == 1,
{
    let workspace = argument(args, 2, "."@);
    lemma_option_missing(args, "--model-dir"@, argument(args, 1, "./weights"@));
    lemma_option_missing(args, "--input"@, workspace + "/quant/burn_features_cache.json"@);
    lemma_option_missing(args, "--output"@, workspace + "/burn_brain_signal.json"@);
}

/// A named argument takes precedence: what follows the first occurrence of its
/// name is taken, whatever stands elsewhere.
pub proof fn law_named_arguments_take_precedence(config: RunConfig, args: Seq<Seq<char>>, at: int)
    requires
        config.follows(args),
        0 <= at < args.len() - 1,
        forall|i: int| 0 <= i < at ==> #[trigger] args[i] != args[at],
    ensures
        args[at] == "--model-dir"@ ==> config.model_dir@ == args[at + 1],
        args[at] == "--input"@ ==> config.features_path@ == args[at + 1],
        args[at] == "--output"@ ==> config.output_path@ == args[at + 1],
{
    let workspace = argument(args, 2, "."@);
    lemma_option_found(args, args[at], argument(args, 1, "./weights"@), at);
    lemma_option_found(args, args[at], workspace + "/quant/burn_features_cache.json"@, at);
    lemma_option_found(args, args[at], workspace + "/burn_brain_signal.json"@, at);
}

/// A name without a value changes nothing of what it names. The run is a single
/// one exactly where that is asked for, and the third place gives the seconds
/// between readings, where a number counts there.
pub proof fn law_missing_names_leave_defaults(config: RunConfig, args: Seq<Seq<char>>)
    requires
        config.follows(args),
    ensures
        config.single_shot <==> exists|i: int| 0 <= i < args.len() && #[trigger] args[i]
            == "--once"@,
        config.interval_s == (match parsed_number(argument(args, 3, "1"@)) {
            Some(seconds) => seconds,
            None => 1,
        }),
        (forall|i: int| 0 <= i < args.len() - 1 ==> #[trigger] args[i] != "--model-dir"@)
            ==> config.model_dir@ == argument(args, 1, "./weights"@),
        (forall|i: int| 0 <= i < args.len() - 1 ==> #[trigger] args[i] != "--input"@)
            ==> config.features_path@ == argument(args, 2, "."@)
            + "/quant/burn_features_cache.json"@,
        (forall|i: int| 0 <= i < args.len() - 1 ==> #[trigger] args[i] != "--output"@)
            ==> config.output_path@ == argument(args, 2, "."@) + "/burn_brain_signal.json"@,
{
    reveal_strlit("1");
    assert("1"@ =~= decimal(1));
    law_numbers_round_trip(1);
    let workspace = argument(args, 2, "."@);
    if forall|i: int| 0 <= i < args.len() - 1 ==> #[trigger] args[i] != "--model-dir"@ {
        lemma_option_missing(args, "--model-dir"@, argument(args, 1, "./weights"@));
    }
    if forall|i: int| 0 <= i < args.len() - 1 ==> #[trigger] args[i] != "--input"@ {
        lemma_option_missing(args, "--input"@, workspace + "/quant/burn_features_cache.json"@);
    }
    if forall|i: int| 0 <= i < args.len() - 1 ==> #[trigger] args[i] != "--output"@ {
        lemma_option_missing(args, "--output"@, workspace + "/burn_brain_signal.json"@);
    }
}

/// Beside a named argument, an argument counts by its place unless it is an
/// option or belongs to one.
pub proof fn law_options_do_not_count_by_place(
    args: Seq<Seq<char>>,
    place: int,
    default: Seq<char>,
    name: int,
)
    requires
        0 < place < args.len(),
        0 <= name < args.len(),
        args[name] == "--model-dir"@ || args[name] == "--input"@ || args[name] == "--output"@,
    ensures
        argument(args, place, default) == (if args[place] == "--model-dir"@ || args[place]
            == "--input"@ || args[place] == "--output"@ || args[place] == "--once"@ || args[place
            - 1] == "--model-dir"@ || args[place - 1] == "--input"@ || args[place - 1]
            == "--output"@ {
            default
        } else {
            args[place]
        }),
{
    assert(named(args));
}

proof fn lemma_option_missing(args: Seq<Seq<char>>, option: Seq<char>, default: Seq<char>)
    requires
        forall|i: int| 0 <= i < args.len() - 1 ==> #[trigger] args[i] != option,
    ensures
        option_value(args, option, default) == default,
    decreases args.len(),
{
    if args.len() >= 2 {
        let rest = args.drop_first();
        assert(args[0] != option);
        assert forall|i: int| 0 <= i < rest.len() - 1 implies #[trigger] rest[i] != option by {
            assert(args[i + 1] != option);
        }
        lemma_option_missing(rest, option, default);
    }
}

proof fn lemma_option_found(
    args: Seq<Seq<char>>,
    option: Seq<char>,
    default: Seq<char>,
    at: int,
)
    requires
        0 <= at < args.len() - 1,
        args[at] == option,
        forall|i: int| 0 <= i < at ==> #[trigger] args[i] != option,
    ensures
        option_value(args, option, default) == args[at + 1],
    decreases args.len(),
{
    if at > 0 {
        let rest = args.drop_first();
        assert(args[0] != option);
        assert forall|i: int| 0 <= i < at - 1 implies #[trigger] rest[i] != option by {
            assert(args[i + 1] != option);
        }
        lemma_option_found(rest, option, default, at - 1);
    }
}

/// The arguments are read as they are, one by one.
pub proof fn law_arguments_are_read_as_they_are(args: Seq<String>, i: int)
    requires
        0 <= i < args.len(),
    ensures
        texts(args).len() == args.len(),
        texts(args)[i] == args[i]@,
{
}

} // verus!
