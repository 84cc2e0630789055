use vstd::prelude::*;

verus! {

/// What the command line asks for.
pub struct Config {
    /// which structure to run: `bv` or `bp`
    pub algo: String,
    /// name of the file with the commands
    pub file_in: String,
    /// name of the file for the results
    pub file_out: String,
}

/// Whether `algo` names one of the two structures.
pub open spec fn known_algo(algo: Seq<char>) -> bool {
    algo =~= seq!['b', 'v'] || algo =~= seq!['b', 'p']
}

/// What `Config::new` says where too few arguments are given.
pub const USAGE: &'static str = "Usage with parameters is `[bv|bp] input_file output_file`";

/// What `Config::new` says where the structure is not known.
pub const UNKNOWN_ALGO: &'static str = "algo needs to be either `bp` or `bv`";

impl Config {
    /// Reads the configuration from the arguments of the program: the program's name,
    /// the structure, the input file and the output file. Fails where fewer than four
    /// arguments are given, or where the structure is neither `bv` nor `bp`.
    pub fn new(args: &[String]) -> (r: Result<Self, &'static str>)
        ensures
            args@.len() <= 3 ==> r is Err && r->Err_0@ == USAGE@,
            args@.len() > 3 && !known_algo(args@[1]@) ==> r is Err && r->Err_0@ == UNKNOWN_ALGO@,
            args@.len() > 3 && known_algo(args@[1]@) ==> r is Ok && r->Ok_0.algo@ == args@[1]@
                && r->Ok_0.file_in@ == args@[2]@ && r->Ok_0.file_out@ == args@[3]@,
    {
        if args.len() <= 3 {
            return Err(USAGE);
        }
        let algo = args[1].clone();
        proof {
            reveal_strlit("bv");
            reveal_strlit("bp");
        }
        let bv = "bv".to_owned();
        let bp = "bp".to_owned();
        proof {
            assert(bv@ =~= seq!['b', 'v']);
            assert(bp@ =~= seq!['b', 'p']);
            assert(algo@ =~= seq!['b', 'v'] ==> algo@ == bv@);
            assert(algo@ =~= seq!['b', 'p'] ==> algo@ == bp@);
        }
        if !(algo == bv) && !(algo == bp) {
            return Err(UNKNOWN_ALGO);
        }
        let file_in = args[2].clone();
        let file_out = args[3].clone();
        Ok(Self { algo, file_in, file_out })
    }
}

} // verus!
