//! Command lines of the gateway, the simulators and the performance tools.
//!
//! The argument lists here start behind the name of the program.

use vstd::prelude::*;
use crate::order;
use crate::text;

verus! {

/// The names of options.
pub open spec fn names_of(names: Seq<&str>) -> Seq<Seq<char>> {
    Seq::new(names.len(), |i: int| names[i]@)
}

/// The arguments start with an option and its value. The last argument has no value, so it
/// is no option.
pub open spec fn starts_with_option(args: Seq<Seq<char>>, names: Seq<Seq<char>>) -> bool {
    args.len() > 1 && names.contains(args[0])
}

/// The value of an option. Where it is given more than once, the last one counts.
pub open spec fn option_value(
    args: Seq<Seq<char>>,
    names: Seq<Seq<char>>,
    name: Seq<char>,
) -> Option<Seq<char>>
    decreases args.len(),
{
    if args.len() == 0 {
        None
    } else if starts_with_option(args, names) {
        match option_value(args.skip(2), names, name) {
            Some(value) => Some(value),
            None => if args[0] == name {
                Some(args[1])
            } else {
                None
            },
        }
    } else {
        option_value(args.skip(1), names, name)
    }
}

/// The arguments that are neither options nor their values.
pub open spec fn plain_arguments(args: Seq<Seq<char>>, names: Seq<Seq<char>>) -> Seq<Seq<char>>
    decreases args.len(),
{
    if args.len() == 0 {
        seq![]
    } else if starts_with_option(args, names) {
        plain_arguments(args.skip(2), names)
    } else {
        seq![args[0]] + plain_arguments(args.skip(1), names)
    }
}

fn is_name(s: &str, names: &Vec<&str>) -> (yes: bool)
    ensures
        yes == names_of(names@).contains(s@),
{
    let mut i: usize = 0;
    while i < names.len()
        invariant
            i <= names.len(),
            forall|k: int| 0 <= k < i ==> (#[trigger] names@[k])@ != s@,
        decreases names.len() - i,
    {
        if order::same_str(names[i], s) {
            assert(names_of(names@)[i as int] == s@);
            return true;
        }
        i += 1;
    }
    proof {
        if names_of(names@).contains(s@) {
            let k = choose|k: int| 0 <= k < names.len() && names_of(names@)[k] == s@;
            assert(names@[k]@ == s@);
        }
    }
    false
}

/// Finds the value of the option `name` in the arguments from `from` on.
fn find_option(args: &Vec<String>, from: usize, names: &Vec<&str>, name: &str) -> (value: Option<
    String,
>)
    requires
        from <= args.len(),
    ensures
        text::owned_text(value) == option_value(
            text::texts(args@).skip(from as int),
            names_of(names@),
            name@,
        ),
{
    let ghost all = text::texts(args@);
    let ghost known = names_of(names@);
    let mut found: Option<String> = None;
    let mut i: usize = from;
    while i < args.len()
        invariant
            all == text::texts(args@),
            known == names_of(names@),
            from <= i <= args.len(),
            option_value(all.skip(from as int), known, name@) == match option_value(
                all.skip(i as int),
                known,
                name@,
            ) {
                Some(value) => Some(value),
                None => text::owned_text(found),
            },
        decreases args.len() - i,
    {
        let left: usize = args.len() - i;
        proof {
            let rest = all.skip(i as int);
            assert(rest[0] == args[i as int]@);
            if left > 1 {
                assert(rest[1] == args[i + 1]@);
                assert(rest.skip(2) =~= all.skip(i + 2));
            }
            assert(rest.skip(1) =~= all.skip(i + 1));
        }
        if left > 1 && is_name(args[i].as_str(), names) {
            if order::same_str(args[i].as_str(), name) {
                found = Some(args[i + 1].clone());
            }
            i += 2;
        } else {
            i += 1;
        }
    }
    assert(all.skip(i as int) =~= seq![]);
    found
}

/// Collects the arguments from `from` on that are neither options nor their values.
fn find_plain_arguments(args: &Vec<String>, from: usize, names: &Vec<&str>) -> (plain: Vec<String>)
    requires
        from <= args.len(),
    ensures
        text::texts(plain@) == plain_arguments(
            text::texts(args@).skip(from as int),
            names_of(names@),
        ),
{
    let ghost all = text::texts(args@);
    let ghost known = names_of(names@);
    let mut plain: Vec<String> = Vec::new();
    let mut i: usize = from;
    assert(plain_arguments(all.skip(from as int), known) =~= text::texts(plain@) + plain_arguments(
        all.skip(i as int),
        known,
    ));
    while i < args.len()
        invariant
            all == text::texts(args@),
            known == names_of(names@),
            from <= i <= args.len(),
            plain_arguments(all.skip(from as int), known) == text::texts(plain@) + plain_arguments(
                all.skip(i as int),
                known,
            ),
        decreases args.len() - i,
    {
        let left: usize = args.len() - i;
        let ghost before = text::texts(plain@);
        proof {
            let rest = all.skip(i as int);
            assert(rest[0] == args[i as int]@);
            if left > 1 {
                assert(rest.skip(2) =~= all.skip(i + 2));
            }
            assert(rest.skip(1) =~= all.skip(i + 1));
        }
        if left > 1 && is_name(args[i].as_str(), names) {
            i += 2;
        } else {
            plain.push(args[i].clone());
            i += 1;
            proof {
                let name = all[i - 1];
                assert(text::texts(plain@) =~= before.push(name));
                assert(before + (seq![name] + plain_arguments(all.skip(i as int), known))
                    =~= text::texts(plain@) + plain_arguments(all.skip(i as int), known));
            }
        }
    }
    proof {
        assert(all.skip(i as int) =~= seq![]);
        assert(text::texts(plain@) + seq![] =~= text::texts(plain@));
    }
    plain
}

/// Why a command line is refused.
#[derive(Clone, Copy, PartialEq, Eq, Structural, Debug)]
pub enum UsageError {
    /// The number of arguments is wrong.
    ArgumentCount,
    /// The topic count is not a number.
    TopicCount,
    /// The message rate is not a number.
    MessageRate,
}

/// A text, or the default where there is none.
pub open spec fn text_or(value: Option<Seq<char>>, default: Seq<char>) -> Seq<char> {
    match value {
        Some(s) => s,
        None => default,
    }
}

/// A number, or the default where there is none or where the text is not a number of at most
/// `max`.
pub open spec fn number_or(value: Option<Seq<char>>, max: nat, default: nat) -> nat {
    match value {
        Some(s) => match text::unsigned_value(s, max) {
            Some(n) => n,
            None => default,
        },
        None => default,
    }
}

fn string_or(value: Option<String>, default: &str) -> (s: String)
    ensures
        s@ == text_or(text::owned_text(value), default@),
{
    match value {
        Some(s) => s,
        None => default.to_owned(),
    }
}

fn parse_usize(s: &str) -> (n: Option<usize>)
    ensures
        match n {
            Some(n) => text::unsigned_value(s@, usize::MAX as nat) == Some(n as nat),
            None => text::unsigned_value(s@, usize::MAX as nat) is None,
        },
{
    match text::parse_unsigned(s, usize::MAX as u64) {
        Some(n) => Some(n as usize),
        None => None,
    }
}

fn usize_or(value: Option<String>, default: usize) -> (n: usize)
    ensures
        n == number_or(text::owned_text(value), usize::MAX as nat, default as nat),
{
    match value {
        Some(s) => match parse_usize(s.as_str()) {
            Some(n) => n,
            None => default,
        },
        None => default,
    }
}

/// Arguments of the gateway.
pub struct GatewayArgs {
    pub id: Option<String>,
    pub config_path: Option<String>,
}

/// The options of the gateway.
pub open spec fn gateway_options() -> Seq<Seq<char>> {
    seq!["--id"@, "--config"@]
}

/// Reads the command line of the gateway: `[--id <node-id>] [--config <path>]`, where the ID
/// can also stand without its option.
pub fn parse_gateway_args(args: &Vec<String>) -> (parsed: GatewayArgs)
    ensures
        ({
            let all = text::texts(args@);
            let plain = plain_arguments(all, gateway_options());
            &&& text::owned_text(parsed.id) == match option_value(
                all,
                gateway_options(),
                "--id"@,
            ) {
                Some(id) => Some(id),
                None => if plain.len() > 0 {
                    Some(plain[0])
                } else {
                    None
                },
            }
            &&& text::owned_text(parsed.config_path) == option_value(
                all,
                gateway_options(),
                "--config"@,
            )
        }),
{
    let names: Vec<&str> = vec!["--id", "--config"];
    proof {
        assert(names_of(names@) =~= gateway_options());
        assert(text::texts(args@).skip(0) =~= text::texts(args@));
    }
    let id = match find_option(args, 0, &names, "--id") {
        Some(id) => Some(id),
        None => {
            let plain = find_plain_arguments(args, 0, &names);
            if plain.len() > 0 {
                assert(text::texts(plain@)[0] == plain@[0]@);
                Some(plain[0].clone())
            } else {
                None
            }
        },
    };
    GatewayArgs { id, config_path: find_option(args, 0, &names, "--config") }
}

/// Arguments of the consumer simulator.
pub struct ConsumerSimArgs {
    pub client_id: String,
    pub file_path: String,
}

/// Reads the command line of the consumer simulator: `<client-id> <file-path>`.
pub fn parse_consumer_sim_args(args: &Vec<String>) -> (parsed: Result<ConsumerSimArgs, UsageError>)
    ensures
        match parsed {
            Ok(p) => {
                &&& args.len() == 2
                &&& p.client_id@ == args[0]@
                &&& p.file_path@ == args[1]@
            },
            Err(e) => e == UsageError::ArgumentCount && args.len() != 2,
        },
{
    if args.len() != 2 {
        return Err(UsageError::ArgumentCount);
    }
    Ok(ConsumerSimArgs { client_id: args[0].clone(), file_path: args[1].clone() })
}

/// Arguments of the producer simulator.
pub struct ProducerSimArgs {
    pub file_path: String,
    pub interval_ms: u64,
}

/// Reads the command line of the producer simulator: `<file-path> [interval-ms]`. An
/// interval that is not a number counts as one that is not there.
pub fn parse_producer_sim_args(args: &Vec<String>) -> (parsed: Result<ProducerSimArgs, UsageError>)
    ensures
        match parsed {
            Ok(p) => {
                &&& args.len() >= 1
                &&& p.file_path@ == args[0]@
                &&& p.interval_ms == number_or(
                    if args.len() > 1 {
                        Some(args[1]@)
                    } else {
                        None
                    },
                    u64::MAX as nat,
                    500,
                )
            },
            Err(e) => e == UsageError::ArgumentCount && args.len() == 0,
        },
{
    if args.len() == 0 {
        return Err(UsageError::ArgumentCount);
    }
    let mut interval_ms: u64 = 500;
    if args.len() > 1 {
        if let Some(ms) = text::parse_unsigned(args[1].as_str(), u64::MAX) {
            interval_ms = ms;
        }
    }
    Ok(ProducerSimArgs { file_path: args[0].clone(), interval_ms })
}

/// Arguments of the performance producer.
pub struct ProducerPerfArgs {
    pub topic_count: usize,
    pub msgs_per_sec: u64,
    pub prefix: String,
    pub payload_size: usize,
    pub workers: usize,
    pub zenoh_endpoint: String,
    /// Arguments that are no known options.
    pub unknown: Vec<String>,
}

/// The options of the performance producer.
pub open spec fn producer_perf_options() -> Seq<Seq<char>> {
    seq!["--prefix"@, "--payload-size"@, "--workers"@, "--zenoh-endpoint"@]
}

/// Reads the command line of the performance producer:
/// `<topic-count> <msgs-per-sec> [options]`. `cores` is the default number of workers.
pub fn parse_producer_perf_args(args: &Vec<String>, cores: usize) -> (parsed: Result<
    ProducerPerfArgs,
    UsageError,
>)
    ensures
        ({
            let all = text::texts(args@);
            let rest = all.skip(2);
            let names = producer_perf_options();
            match parsed {
                Err(UsageError::ArgumentCount) => args.len() < 2,
                Err(UsageError::TopicCount) => {
                    &&& args.len() >= 2
                    &&& text::unsigned_value(all[0], usize::MAX as nat) is None
                },
                Err(UsageError::MessageRate) => {
                    &&& args.len() >= 2
                    &&& text::unsigned_value(all[0], usize::MAX as nat) is Some
                    &&& text::unsigned_value(all[1], u64::MAX as nat) is None
                },
                Ok(p) => {
                    &&& args.len() >= 2
                    &&& text::unsigned_value(all[0], usize::MAX as nat) == Some(
                        p.topic_count as nat,
                    )
                    &&& text::unsigned_value(all[1], u64::MAX as nat) == Some(
                        p.msgs_per_sec as nat,
                    )
                    &&& p.prefix@ == text_or(
                        option_value(rest, names, "--prefix"@),
                        "perf/topic"@,
                    )
                    &&& p.payload_size == number_or(
                        option_value(rest, names, "--payload-size"@),
                        usize::MAX as nat,
                        1024,
                    )
                    &&& p.workers == number_or(
                        option_value(rest, names, "--workers"@),
                        usize::MAX as nat,
                        cores as nat,
                    )
                    &&& p.zenoh_endpoint@ == text_or(
                        option_value(rest, names, "--zenoh-endpoint"@),
                        "tcp/localhost:7447"@,
                    )
                    &&& text::texts(p.unknown@) == plain_arguments(rest, names)
                },
            }
        }),
{
    if args.len() < 2 {
        return Err(UsageError::ArgumentCount);
    }
    let topic_count: usize = match parse_usize(args[0].as_str()) {
        Some(n) => n,
        None => return Err(UsageError::TopicCount),
    };
    let msgs_per_sec: u64 = match text::parse_unsigned(args[1].as_str(), u64::MAX) {
        Some(n) => n,
        None => return Err(UsageError::MessageRate),
    };
    let names: Vec<&str> = vec!["--prefix", "--payload-size", "--workers", "--zenoh-endpoint"];
    assert(names_of(names@) =~= producer_perf_options());
    Ok(
        ProducerPerfArgs {
            topic_count,
            msgs_per_sec,
            prefix: string_or(find_option(args, 2, &names, "--prefix"), "perf/topic"),
            payload_size: usize_or(find_option(args, 2, &names, "--payload-size"), 1024),
            workers: usize_or(find_option(args, 2, &names, "--workers"), cores),
            zenoh_endpoint: string_or(
                find_option(args, 2, &names, "--zenoh-endpoint"),
                "tcp/localhost:7447",
            ),
            unknown: find_plain_arguments(args, 2, &names),
        },
    )
}

/// Arguments of the performance consumer.
pub struct ConsumerPerfArgs {
    pub client_id: String,
    pub topic_count: usize,
    pub prefix: String,
    pub zenoh_endpoint: String,
    /// Arguments that are no known options.
    pub unknown: Vec<String>,
}

/// The options of the performance consumer.
pub open spec fn consumer_perf_options() -> Seq<Seq<char>> {
    seq!["--prefix"@, "--zenoh-endpoint"@]
}

/// Reads the command line of the performance consumer: `<client-id> <topic-count> [options]`.
pub fn parse_consumer_perf_args(args: &Vec<String>) -> (parsed: Result<
    ConsumerPerfArgs,
    UsageError,
>)
    ensures
        ({
            let all = text::texts(args@);
            let rest = all.skip(2);
            let names = consumer_perf_options();
            match parsed {
                Err(UsageError::ArgumentCount) => args.len() < 2,
                Err(UsageError::TopicCount) => {
                    &&& args.len() >= 2
                    &&& text::unsigned_value(all[1], usize::MAX as nat) is None
                },
                Err(UsageError::MessageRate) => false,
                Ok(p) => {
                    &&& args.len() >= 2
                    &&& p.client_id@ == all[0]
                    &&& text::unsigned_value(all[1], usize::MAX as nat) == Some(
                        p.topic_count as nat,
                    )
                    &&& p.prefix@ == text_or(
                        option_value(rest, names, "--prefix"@),
                        "perf/topic"@,
                    )
                    &&& p.zenoh_endpoint@ == text_or(
                        option_value(rest, names, "--zenoh-endpoint"@),
                        "tcp/localhost:7447"@,
                    )
                    &&& text::texts(p.unknown@) == plain_arguments(rest, names)
                },
            }
        }),
{
    if args.len() < 2 {
        return Err(UsageError::ArgumentCount);
    }
    let topic_count: usize = match parse_usize(args[1].as_str()) {
        Some(n) => n,
        None => return Err(UsageError::TopicCount),
    };
    let names: Vec<&str> = vec!["--prefix", "--zenoh-endpoint"];
    assert(names_of(names@) =~= consumer_perf_options());
    Ok(
        ConsumerPerfArgs {
            client_id: args[0].clone(),
            topic_count,
            prefix: string_or(find_option(args, 2, &names, "--prefix"), "perf/topic"),
            zenoh_endpoint: string_or(
                find_option(args, 2, &names, "--zenoh-endpoint"),
                "tcp/localhost:7447",
            ),
            unknown: find_plain_arguments(args, 2, &names),
        },
    )
}

/// How options are found: an option and its value count together, a later one before an
/// earlier one, an argument that is no option is passed over, and the last argument is no
/// option.
pub proof fn law_options_are_found(
    names: Seq<Seq<char>>,
    name: Seq<char>,
    option: Seq<char>,
    value: Seq<char>,
    rest: Seq<Seq<char>>,
)
    ensures
        option_value(seq![], names, name) is None,
        option_value(seq![option], names, name) is None,
        names.contains(option) ==> option_value(seq![option, value] + rest, names, name)
            == match option_value(rest, names, name) {
            Some(later) => Some(later),
            None => if option == name {
                Some(value)
            } else {
                None
            },
        },
        !names.contains(option) ==> option_value(seq![option] + rest, names, name) == option_value(
            rest,
            names,
            name,
        ),
{
    let none = Seq::<Seq<char>>::empty();
    assert(option_value(none, names, name) is None);
    assert(seq![option].skip(1) =~= none);
    assert((seq![option, value] + rest).skip(2) =~= rest);
    assert((seq![option] + rest).skip(1) =~= rest);
}

/// Which arguments are left over: those that are no options, in their order, and the last
/// one even where it has the name of an option.
pub proof fn law_other_arguments_are_left_over(
    names: Seq<Seq<char>>,
    argument: Seq<char>,
    value: Seq<char>,
    rest: Seq<Seq<char>>,
)
    ensures
        plain_arguments(seq![], names) == Seq::<Seq<char>>::empty(),
        plain_arguments(seq![argument], names) == seq![argument],
        names.contains(argument) ==> plain_arguments(seq![argument, value] + rest, names)
            == plain_arguments(rest, names),
        !names.contains(argument) ==> plain_arguments(seq![argument] + rest, names)
            == seq![argument] + plain_arguments(rest, names),
{
    let none = Seq::<Seq<char>>::empty();
    assert(plain_arguments(none, names) == none);
    assert(seq![argument].skip(1) =~= none);
    assert(seq![argument] + none =~= seq![argument]);
    assert((seq![argument, value] + rest).skip(2) =~= rest);
    assert((seq![argument] + rest).skip(1) =~= rest);
}

/// A value that is given counts, and a number wherever it is one that fits; otherwise the
/// default.
pub proof fn law_given_values_count(s: Seq<char>, max: nat, text_default: Seq<char>, default: nat)
    ensures
        text_or(Some(s), text_default) == s,
        text_or(None, text_default) == text_default,
        number_or(None, max, default) == default,
        text::unsigned_value(s, max) is None ==> number_or(Some(s), max, default) == default,
        text::unsigned_value(s, max) matches Some(n) ==> number_or(Some(s), max, default) == n,
{
}

/// The options of each tool.
pub proof fn law_options_of_the_tools()
    ensures
        gateway_options() == seq!["--id"@, "--config"@],
        producer_perf_options() == seq![
            "--prefix"@,
            "--payload-size"@,
            "--workers"@,
            "--zenoh-endpoint"@,
        ],
        consumer_perf_options() == seq!["--prefix"@, "--zenoh-endpoint"@],
{
}

} // verus!
