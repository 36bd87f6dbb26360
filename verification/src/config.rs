//! Run configuration: the input and output paths, taken from the first
//! two positional arguments.

use vstd::prelude::*;

verus! {

/// The two paths a run works on.
#[derive(Debug)]
pub struct Config {
    pub input: String,
    pub output: String,
}

impl Config {
    /// Reads the input and output paths from an argument list whose first
    /// element is the program name. Fails exactly when fewer than two
    /// arguments follow it.
    pub fn build_config(args: &Vec<String>) -> (r: Result<Self, String>)
        ensures
            r is Ok <==> args@.len() >= 3,
            r matches Ok(c) ==> c.input@ == args@[1]@ && c.output@ == args@[2]@,
    {
        if args.len() < 3 {
            return Err("insufficient arguments".to_owned());
        }
        let input = args[1].clone();
        let output = args[2].clone();
        Ok(Self { input, output })
    }
}

} // verus!
