//! From a command line to a scan configuration.
//!
//! The accepted forms are `<prog> -h`, `<prog> --help`, `<prog> <address>` and
//! `<prog> -j <workers> <address>`. Reading an argument as an IP address is
//! left to the caller, who hands in what came of it.

use crate::text::{decimal_u16, parse_decimal, same_text};
use vstd::prelude::*;

verus! {

/// The number of workers used when the command line names none.
pub const DEFAULT_WORKERS: u16 = 4;

/// The host to scan: the octets of an IPv4 address or the segments of an
/// IPv6 address.
#[derive(Clone, Copy, Debug, PartialEq, Eq)]
pub enum TargetAddress {
    V4([u8; 4]),
    V6([u16; 8]),
}

/// Why a command line gave no scan configuration. `HelpRequested` is no
/// fault of the user: it asks for the usage text instead of a scan.
#[derive(Clone, Copy, Debug, PartialEq, Eq, Structural)]
pub enum ConfigError {
    HelpRequested,
    ArgumentCountError,
    ThreadCountParseError,
    AddressParseError,
    InvalidArgumentsError,
}

/// The usage text, shown on a help request.
pub const USAGE: &'static str =
    "Usage: -j to select how many threads you want\n       -h or --help to show this help message";

impl ConfigError {
    /// What the user is told: the usage text for a help request, the reason
    /// for a refused command line.
    pub open spec fn message_text(self) -> Seq<char> {
        match self {
            ConfigError::HelpRequested => USAGE@,
            ConfigError::ArgumentCountError => "Invalid arguments, wrong number of arguments"@,
            ConfigError::ThreadCountParseError => "failed to parse thread number"@,
            ConfigError::AddressParseError => "not a valid IPADDR; must be IPv4 or IPv6"@,
            ConfigError::InvalidArgumentsError => "Invalid arguments"@,
        }
    }

    /// What the user is told.
    pub fn message(&self) -> (text: &'static str)
        ensures
            text@ == self.message_text(),
    {
        match self {
            ConfigError::HelpRequested => USAGE,
            ConfigError::ArgumentCountError => "Invalid arguments, wrong number of arguments",
            ConfigError::ThreadCountParseError => "failed to parse thread number",
            ConfigError::AddressParseError => "not a valid IPADDR; must be IPv4 or IPv6",
            ConfigError::InvalidArgumentsError => "Invalid arguments",
        }
    }
}

/// A validated scan configuration: the target and a worker count of at least
/// one.
#[derive(Clone, Copy, Debug, PartialEq, Eq)]
pub struct ScanConfig {
    target: TargetAddress,
    workers: u16,
}

impl ScanConfig {
    #[verifier::type_invariant]
    spec fn inv(self) -> bool {
        self.workers >= 1
    }

    /// The host to scan.
    pub closed spec fn spec_target(&self) -> TargetAddress {
        self.target
    }

    /// The number of workers.
    pub closed spec fn spec_workers(&self) -> u16 {
        self.workers
    }

    /// A configuration for `workers` workers scanning `target`; none for a
    /// pool of zero workers.
    pub fn new(target: TargetAddress, workers: u16) -> (config: Option<ScanConfig>)
        ensures
            config is Some <==> workers >= 1,
            config matches Some(c) ==> c.target() == target && c.workers() == workers,
    {
        if workers >= 1 {
            Some(ScanConfig { target, workers })
        } else {
            None
        }
    }

    /// The host to scan.
    #[verifier::when_used_as_spec(spec_target)]
    pub fn target(&self) -> (target: TargetAddress)
        ensures
            target == self.spec_target(),
    {
        self.target
    }

    /// The number of workers, at least one.
    #[verifier::when_used_as_spec(spec_workers)]
    pub fn workers(&self) -> (workers: u16)
        ensures
            workers == self.spec_workers(),
            workers >= 1,
    {
        proof {
            use_type_invariant(self);
        }
        self.workers
    }
}

/// The command line as the texts of its arguments, the program's name first.
pub open spec fn arguments(args: &Vec<String>) -> Seq<Seq<char>> {
    Seq::new(args@.len(), |i: int| args@[i]@)
}

/// Whether `arg` is one of the two spellings of the help flag.
pub open spec fn is_help_flag(arg: Seq<char>) -> bool {
    arg == "-h"@ || arg == "--help"@
}

/// Whether any argument, the program's name included, is a help flag.
pub open spec fn asks_for_help(args: Seq<Seq<char>>) -> bool {
    exists|i: int| 0 <= i < args.len() && is_help_flag(#[trigger] args[i])
}

/// Whether the command line has the form `<prog> -j <workers> <address>`.
pub open spec fn names_workers(args: Seq<Seq<char>>) -> bool {
    args.len() == 4 && args[1] == "-j"@
}

/// The worker count that `text` writes: a 16-bit decimal number that is not
/// zero.
pub open spec fn worker_count(text: Seq<char>) -> Option<u16> {
    match decimal_u16(text) {
        Some(count) if count >= 1 => Some(count),
        _ => None,
    }
}

/// What a command line without a help flag and with an accepted number of
/// arguments resolves to, where `address` is what reading its address
/// argument gave.
pub open spec fn shape_resolution(args: Seq<Seq<char>>, address: Option<TargetAddress>) -> Result<
    (TargetAddress, u16),
    ConfigError,
> {
    if names_workers(args) {
        match (worker_count(args[2]), address) {
            (None, _) => Err(ConfigError::ThreadCountParseError),
            (Some(_), None) => Err(ConfigError::AddressParseError),
            (Some(workers), Some(target)) => Ok((target, workers)),
        }
    } else if args.len() == 2 {
        match address {
            Some(target) => Ok((target, DEFAULT_WORKERS)),
            None => Err(ConfigError::InvalidArgumentsError),
        }
    } else {
        Err(ConfigError::InvalidArgumentsError)
    }
}

/// What a command line resolves to: the target and the worker count of the
/// scan it asks for, or the reason why it asks for none. A help flag comes
/// before everything else, the number of arguments before their shape.
pub open spec fn resolution(args: Seq<Seq<char>>, address: Option<TargetAddress>) -> Result<
    (TargetAddress, u16),
    ConfigError,
> {
    if asks_for_help(args) {
        Err(ConfigError::HelpRequested)
    } else if !(2 <= args.len() <= 4) {
        Err(ConfigError::ArgumentCountError)
    } else {
        shape_resolution(args, address)
    }
}

/// The position of the argument on whose reading as an address the
/// resolution hinges; none where the resolution is the same whatever the
/// address.
pub open spec fn address_position(args: Seq<Seq<char>>) -> Option<int> {
    if asks_for_help(args) {
        None
    } else if names_workers(args) && worker_count(args[2]) is Some {
        Some(3)
    } else if args.len() == 2 {
        Some(1)
    } else {
        None
    }
}

/// Whether `outcome` is the configuration or the error that `expected`
/// describes.
pub open spec fn agrees(
    outcome: Result<ScanConfig, ConfigError>,
    expected: Result<(TargetAddress, u16), ConfigError>,
) -> bool {
    match outcome {
        Ok(config) => expected == Ok::<(TargetAddress, u16), ConfigError>(
            (config.target(), config.workers()),
        ),
        Err(error) => expected == Err::<(TargetAddress, u16), ConfigError>(error),
    }
}

/// A help flag anywhere on the command line decides the resolution, whatever
/// else the command line holds.
pub proof fn lemma_help_comes_first(args: Seq<Seq<char>>, address: Option<TargetAddress>, at: int)
    requires
        0 <= at < args.len(),
        is_help_flag(args[at]),
    ensures
        resolution(args, address) == Err::<(TargetAddress, u16), ConfigError>(
            ConfigError::HelpRequested,
        ),
{
}

/// Where no argument's reading matters, no address changes the resolution.
pub proof fn lemma_resolution_without_address(
    args: Seq<Seq<char>>,
    first: Option<TargetAddress>,
    second: Option<TargetAddress>,
)
    requires
        address_position(args) is None,
    ensures
        resolution(args, first) == resolution(args, second),
{
}

/// Whether `arg` is a help flag.
pub fn is_help(arg: &str) -> (help: bool)
    ensures
        help == is_help_flag(arg@),
{
    same_text(arg, "-h") || same_text(arg, "--help")
}

/// Whether any argument is a help flag.
pub fn help_requested(args: &Vec<String>) -> (help: bool)
    ensures
        help == asks_for_help(arguments(args)),
{
    let mut i: usize = 0;
    while i < args.len()
        invariant
            i <= args@.len(),
            forall|j: int| 0 <= j < i ==> !is_help_flag(#[trigger] arguments(args)[j]),
        decreases args@.len() - i,
    {
        if is_help(args[i].as_str()) {
            assert(is_help_flag(arguments(args)[i as int]));
            return true;
        }
        i += 1;
    }
    false
}

/// Accepts a command line of two to four arguments, the program's name
/// counted.
pub fn check_count(args: &Vec<String>) -> (outcome: Result<(), ConfigError>)
    ensures
        outcome is Ok <==> 2 <= args@.len() <= 4,
        outcome is Err ==> outcome == Err::<(), ConfigError>(ConfigError::ArgumentCountError),
{
    if args.len() < 2 || args.len() > 4 {
        Err(ConfigError::ArgumentCountError)
    } else {
        Ok(())
    }
}

/// Reads `text` as a worker count.
pub fn parse_worker_count(text: &str) -> (count: Option<u16>)
    ensures
        count == worker_count(text@),
{
    match parse_decimal(text) {
        Some(count) => if count >= 1 {
            Some(count)
        } else {
            None
        },
        None => None,
    }
}

/// Whether the command line has the form `<prog> -j <workers> <address>`.
fn has_worker_flag(args: &Vec<String>) -> (named: bool)
    ensures
        named == names_workers(arguments(args)),
{
    args.len() == 4 && same_text(args[1].as_str(), "-j")
}

/// Which argument the caller has to read as an address before `resolve` can
/// decide, if any.
pub fn address_argument(args: &Vec<String>) -> (position: Option<usize>)
    ensures
        position is Some <==> address_position(arguments(args)) is Some,
        position matches Some(at) ==> address_position(arguments(args)) == Some(at as int) && at
            < args@.len(),
{
    if help_requested(args) {
        None
    } else if has_worker_flag(args) {
        match parse_worker_count(args[2].as_str()) {
            Some(_) => Some(3),
            None => None,
        }
    } else if args.len() == 2 {
        Some(1)
    } else {
        None
    }
}

/// Resolves a command line by its shape alone, given what reading its
/// address argument gave. The help flag and the number of arguments are for
/// the caller to check first.
pub fn parse_args(args: &Vec<String>, address: Option<TargetAddress>) -> (outcome: Result<
    ScanConfig,
    ConfigError,
>)
    ensures
        agrees(outcome, shape_resolution(arguments(args), address)),
{
    if has_worker_flag(args) {
        let workers: u16 = match parse_worker_count(args[2].as_str()) {
            Some(workers) => workers,
            None => { return Err(ConfigError::ThreadCountParseError); },
        };
        let target = match address {
            Some(target) => target,
            None => { return Err(ConfigError::AddressParseError); },
        };
        Ok(ScanConfig { target, workers })
    } else if args.len() == 2 {
        match address {
            Some(target) => Ok(ScanConfig { target, workers: DEFAULT_WORKERS }),
            None => Err(ConfigError::InvalidArgumentsError),
        }
    } else {
        Err(ConfigError::InvalidArgumentsError)
    }
}

/// Resolves a command line, given what reading its address argument gave:
/// `address` is the address that the argument at `address_argument(args)`
/// writes, or `None` where it writes none or no argument is to be read.
pub fn resolve(args: &Vec<String>, address: Option<TargetAddress>) -> (outcome: Result<
    ScanConfig,
    ConfigError,
>)
    ensures
        agrees(outcome, resolution(arguments(args), address)),
{
    if help_requested(args) {
        return Err(ConfigError::HelpRequested);
    }
    match check_count(args) {
        Ok(_) => parse_args(args, address),
        Err(error) => Err(error),
    }
}

/// Resolves a command line, reading the address argument with
/// `read_address` where the resolution hinges on one. The reader is called
/// at most once, and only on that argument.
pub fn resolve_with<F: Fn(&str) -> Option<TargetAddress>>(
    args: &Vec<String>,
    read_address: F,
) -> (outcome: Result<ScanConfig, ConfigError>)
    requires
        address_position(arguments(args)) matches Some(at) ==> forall|text: &str|
            text@ == arguments(args)[at] ==> read_address.requires((text,)),
    ensures
        match address_position(arguments(args)) {
            Some(at) => exists|text: &str, address: Option<TargetAddress>|
                text@ == arguments(args)[at] && #[trigger] read_address.ensures((text,), address)
                    && agrees(outcome, resolution(arguments(args), address)),
            None => agrees(outcome, resolution(arguments(args), None)),
        },
{
    match address_argument(args) {
        Some(at) => {
            let text = args[at].as_str();
            let address = read_address(text);
            resolve(args, address)
        },
        None => resolve(args, None),
    }
}

} // verus!
