//! The settings of one run.

use vstd::prelude::*;

verus! {

/// What the command line held, argument by argument: `None` where an
/// argument is absent and has no default.
pub struct Matches<'a> {
    pub extension: Option<&'a str>,
    pub bin: Option<&'a str>,
    pub main_file: Option<&'a str>,
    pub compiler: Option<&'a str>,
    pub std: Option<&'a str>,
    pub opt: Option<&'a str>,
    pub tests: Option<Vec<&'a str>>,
    pub benchmarks: Option<Vec<&'a str>>,
    pub examples: Option<Vec<&'a str>>,
}

/// The settings of one run.
pub struct Cli<'cli> {
    /// The source file whose program gets the name `binary`.
    pub main_file: &'cli str,
    pub compiler: &'cli str,
    /// The extension of the files to compile: `c` or `cpp`.
    pub extension: &'cli str,
    pub binary: &'cli str,
    pub standard: &'cli str,
    pub opt_level: &'cli str,
    /// The files and directories of tests; order and repetition do not
    /// matter.
    pub tests: Vec<&'cli str>,
    /// The files and directories of benchmarks.
    pub benchmarks: Vec<&'cli str>,
    /// The files and directories of examples.
    pub examples: Vec<&'cli str>,
}

/// What a `Cli` holds, as mathematical values.
pub struct CliView {
    pub main_file: Seq<char>,
    pub compiler: Seq<char>,
    pub extension: Seq<char>,
    pub binary: Seq<char>,
    pub standard: Seq<char>,
    pub opt_level: Seq<char>,
    pub tests: Seq<Seq<char>>,
    pub benchmarks: Seq<Seq<char>>,
    pub examples: Seq<Seq<char>>,
}

impl<'cli> View for Cli<'cli> {
    type V = CliView;

    open spec fn view(&self) -> CliView {
        CliView {
            main_file: self.main_file@,
            compiler: self.compiler@,
            extension: self.extension@,
            binary: self.binary@,
            standard: self.standard@,
            opt_level: self.opt_level@,
            tests: self.tests.deep_view(),
            benchmarks: self.benchmarks.deep_view(),
            examples: self.examples.deep_view(),
        }
    }
}

/// The extensions that can be compiled.
pub open spec fn supported_extension(ext: Seq<char>) -> bool {
    ext == "c"@ || ext == "cpp"@
}

/// Why `matches` cannot become settings, or `None` where it can: the
/// first of the extension being absent, the extension being unsupported,
/// and the binary's name, the main file or the compiler being absent.
pub open spec fn rejection(matches: &Matches) -> Option<Seq<char>> {
    if matches.extension is None {
        Some("You must provide and file extension to search for"@)
    } else if !supported_extension(matches.extension->0@) {
        Some("Only C or C++ files are allowed (extension should be either c or cpp)"@)
    } else if matches.bin is None {
        Some("You must provide a name for your executable"@)
    } else if matches.main_file is None {
        Some("You must provide the main source file"@)
    } else if matches.compiler is None {
        Some(""@)
    } else {
        None
    }
}

/// The arguments that always have a value, by a default if not otherwise,
/// are there.
pub open spec fn defaults_present(matches: &Matches) -> bool {
    matches.std is Some && matches.opt is Some && matches.tests is Some && matches.benchmarks
        is Some && matches.examples is Some
}

/// The settings that `matches` gives where nothing is missing.
pub open spec fn settings(matches: &Matches) -> CliView {
    CliView {
        main_file: matches.main_file->0@,
        compiler: matches.compiler->0@,
        extension: matches.extension->0@,
        binary: matches.bin->0@,
        standard: matches.std->0@,
        opt_level: matches.opt->0@,
        tests: matches.tests->0.deep_view(),
        benchmarks: matches.benchmarks->0.deep_view(),
        examples: matches.examples->0.deep_view(),
    }
}

/// A copy of `v`.
fn copied<'a>(v: &Vec<&'a str>) -> (r: Vec<&'a str>)
    ensures
        r@ == v@,
{
    let mut r: Vec<&'a str> = Vec::new();
    let mut i: usize = 0;
    while i < v.len()
        invariant
            i <= v.len(),
            r@ == v@.take(i as int),
        decreases v.len() - i,
    {
        r.push(v[i]);
        i += 1;
        assert(v@.take(i as int) =~= v@.take(i - 1).push(v@[i - 1]));
    }
    assert(v@.take(v.len() as int) =~= v@);
    r
}

impl<'cli> Cli<'cli> {
    /// The settings that the command line gives, or the reason why it
    /// gives none.
    pub fn from_matches(matches: &'cli Matches<'cli>) -> (r: Result<Self, &'static str>)
        requires
            rejection(matches) is None ==> defaults_present(matches),
        ensures
            match r {
                Ok(cli) => rejection(matches) is None && cli@ == settings(matches),
                Err(message) => rejection(matches) == Some(message@),
            },
    {
        let extension = match matches.extension {
            Some(e) => e,
            None => {
                return Err("You must provide and file extension to search for");
            },
        };
        if !(*extension == *"c") && !(*extension == *"cpp") {
            return Err("Only C or C++ files are allowed (extension should be either c or cpp)");
        }
        let binary = match matches.bin {
            Some(b) => b,
            None => {
                return Err("You must provide a name for your executable");
            },
        };
        let main_file = match matches.main_file {
            Some(m) => m,
            None => {
                return Err("You must provide the main source file");
            },
        };
        let compiler = match matches.compiler {
            Some(c) => c,
            None => {
                return Err("");
            },
        };
        let standard = matches.std.unwrap();
        let opt_level = matches.opt.unwrap();
        let tests = copied(matches.tests.as_ref().unwrap());
        let benchmarks = copied(matches.benchmarks.as_ref().unwrap());
        let examples = copied(matches.examples.as_ref().unwrap());
        Ok(
            Cli {
                binary,
                main_file,
                compiler,
                extension,
                standard,
                opt_level,
                tests,
                benchmarks,
                examples,
            },
        )
    }
}

} // verus!
