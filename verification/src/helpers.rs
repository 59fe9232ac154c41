//! Configuration handed in by the surrounding program: which corpus file
//! to index and which index variant to use.
use vstd::prelude::*;

verus! {

pub struct Config {
    pub file_path: String,
    pub indexno: String,
}

impl Config {
    /// Read a configuration from the program arguments: the corpus file
    /// path and the index number, after the program name.
    pub fn build(args: &[String]) -> (result: Result<Config, &'static str>)
        ensures
            match result {
                Ok(config) => args@.len() >= 3 && config.file_path@ == args@[1]@
                    && config.indexno@ == args@[2]@,
                Err(_) => args@.len() < 3,
            },
    {
        if args.len() < 3 {
            return Err("not enough arguments");
        }

        let file_path = args[1].clone();
        let indexno = args[2].clone();

        Ok(Config { file_path, indexno })
    }
}

} // verus!
