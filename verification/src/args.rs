//! The command line, and what is said of a file that cannot be recognised.
use vstd::prelude::*;

use crate::text;

verus! {

/// What the command line asks for.
pub struct Args {
    /// The recording to recognise; `None` where the application is to be run.
    pub file: Option<String>,
}

/// Whether `arg` is an option: it begins with a hyphen.
pub open spec fn is_option(arg: Seq<char>) -> bool {
    arg.len() > 0 && arg[0] == '-'
}

/// The first of `args` from position `i` on that is no option.
pub open spec fn first_file(args: Seq<Seq<char>>, i: int) -> Option<Seq<char>>
    decreases args.len() - i,
{
    if i < 0 || i >= args.len() {
        None
    } else if is_option(args[i]) {
        first_file(args, i + 1)
    } else {
        Some(args[i])
    }
}

/// The file is a word of the command line that does not begin with a hyphen, and of the
/// words before it all do; where there is none, all words do.
pub proof fn lemma_first_file(args: Seq<Seq<char>>, from: int)
    requires
        0 <= from,
    ensures
        match first_file(args, from) {
            Some(file) => exists|i: int|
                from <= i < args.len() && file == #[trigger] args[i] && !(args[i].len() > 0
                    && args[i][0] == '-') && forall|j: int|
                    from <= j < i ==> (#[trigger] args[j]).len() > 0 && args[j][0] == '-',
            None => forall|j: int|
                from <= j < args.len() ==> (#[trigger] args[j]).len() > 0 && args[j][0] == '-',
        },
    decreases args.len() - from,
{
    if from < args.len() && is_option(args[from]) {
        lemma_first_file(args, from + 1);
        if let Some(file) = first_file(args, from + 1) {
            let i = choose|i: int|
                from + 1 <= i < args.len() && file == #[trigger] args[i] && !(args[i].len() > 0
                    && args[i][0] == '-') && forall|j: int|
                    from + 1 <= j < i ==> (#[trigger] args[j]).len() > 0 && args[j][0] == '-';
            assert(file == args[i]);
        }
    } else if from < args.len() {
        assert(first_file(args, from) == Some(args[from]));
    }
}

impl Args {
    /// Reads a command line, whose first word is the name of the program. The first word
    /// behind it that is no option is the file.
    pub fn parse(args: &Vec<String>) -> (r: Args)
        ensures
            match r.file {
                Some(file) => first_file(text::texts(args@), 1) == Some(file@),
                None => first_file(text::texts(args@), 1) is None,
            },
    {
        let ghost all = text::texts(args@);
        let mut i: usize = 1;
        while i < args.len()
            invariant
                1 <= i,
                all == text::texts(args@),
                first_file(all, 1) == first_file(all, i as int),
            decreases args@.len() - i,
        {
            let arg = args[i].as_str();
            assert(all[i as int] == arg@);
            let option = arg.unicode_len() > 0 && arg.get_char(0) == '-';
            if !option {
                return Args { file: Some(args[i].clone()) };
            }
            i = i + 1;
        }
        Args { file: None }
    }
}

/// Whether a recording can be recognised: `num_samples` is how much is in it, or `None`
/// where the file could not be read.
pub fn check_wave(path: &str, num_samples: Option<i32>) -> (r: Result<(), String>)
    ensures
        match num_samples {
            None => r matches Err(message) && message@ == "failed to read WAV: "@ + path@,
            Some(n) => if n == 0 {
                r matches Err(message) && message@ == "empty audio: "@ + path@
            } else {
                r is Ok
            },
        },
{
    match num_samples {
        None => {
            let mut message = "failed to read WAV: ".to_owned();
            message.append(path);
            Err(message)
        },
        Some(n) => if n == 0 {
            let mut message = "empty audio: ".to_owned();
            message.append(path);
            Err(message)
        } else {
            Ok(())
        },
    }
}

} // verus!
