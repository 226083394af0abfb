//! Canonical language names.
//!
//! Every source labels languages its own way ("golang", "Node.js", "gpp").
//! A label is normalised (whitespace stripped, lower-cased) and looked up in
//! a fixed alias table; hits map to the canonical spelling, a hit on the
//! empty string drops the label, and misses pass through trimmed.

use vstd::prelude::*;
use crate::strutil::{
    is_whitespace_of, lower_char_of, upper_char_of, is_whitespace_char, lower_char, upper_char,
    push_char, trimmed_of, trim_str, str_eq,
};

verus! {

/// The alias key of a label: whitespace removed, every character lower-cased.
pub open spec fn normalized_key_of(s: Seq<char>) -> Seq<char>
    decreases s.len(),
{
    if s.len() == 0 {
        Seq::empty()
    } else if is_whitespace_of(s[0]) {
        normalized_key_of(s.drop_first())
    } else {
        lower_char_of(s[0]) + normalized_key_of(s.drop_first())
    }
}

/// Builds the alias key of a label.
pub fn normalize_alias_key(input: &str) -> (r: String)
    ensures
        r@ == normalized_key_of(input@),
{
    let len = input.unicode_len();
    let mut out = String::new();
    let mut i: usize = 0;
    proof {
        assert(input@.skip(0) =~= input@);
    }
    while i < len
        invariant
            i <= len,
            len == input@.len(),
            normalized_key_of(input@) == out@ + normalized_key_of(input@.skip(i as int)),
        decreases len - i,
    {
        let c = input.get_char(i);
        proof {
            assert(input@.skip(i as int)[0] == input@[i as int]);
            assert(input@.skip(i as int).drop_first() =~= input@.skip(i + 1));
        }
        if !is_whitespace_char(c) {
            let lc = lower_char(c);
            let mut j: usize = 0;
            proof {
                assert(out@ + lc@.take(0) =~= out@);
            }
            let ghost out0 = out@;
            while j < lc.len()
                invariant
                    j <= lc.len(),
                    out@ == out0 + lc@.take(j as int),
                decreases lc.len() - j,
            {
                proof {
                    assert(lc@.take(j + 1) =~= lc@.take(j as int).push(lc@[j as int]));
                }
                push_char(&mut out, lc[j]);
                j = j + 1;
            }
            proof {
                assert(lc@.take(lc@.len() as int) =~= lc@);
                assert((out0 + lower_char_of(c)) + normalized_key_of(input@.skip(i + 1)) =~= out0
                    + (lower_char_of(c) + normalized_key_of(input@.skip(i + 1))));
            }
        }
        i = i + 1;
    }
    proof {
        assert(input@.skip(len as int) =~= Seq::<char>::empty());
        assert(out@ + Seq::<char>::empty() =~= out@);
    }
    out
}

/// A word with its first character upper-cased and the rest lower-cased.
pub open spec fn lowered_of(s: Seq<char>) -> Seq<char>
    decreases s.len(),
{
    if s.len() == 0 {
        Seq::empty()
    } else {
        lower_char_of(s[0]) + lowered_of(s.drop_first())
    }
}

/// The capitalised form of a word: Unicode uppercase of the first character,
/// Unicode lowercase of the rest.
pub open spec fn capitalized_of(s: Seq<char>) -> Seq<char> {
    if s.len() == 0 {
        Seq::empty()
    } else {
        upper_char_of(s[0]) + lowered_of(s.drop_first())
    }
}

/// Capitalises one word.
pub fn capitalize_word(input: &str) -> (r: String)
    ensures
        r@ == capitalized_of(input@),
{
    let len = input.unicode_len();
    let mut out = String::new();
    if len == 0 {
        proof {
            assert(out@ =~= capitalized_of(input@));
        }
        return out;
    }
    let first = input.get_char(0);
    let uc = upper_char(first);
    let mut j: usize = 0;
    proof {
        assert(out@ + uc@.take(0) =~= out@);
    }
    while j < uc.len()
        invariant
            j <= uc.len(),
            out@ == uc@.take(j as int),
        decreases uc.len() - j,
    {
        proof {
            assert(uc@.take(j + 1) =~= uc@.take(j as int).push(uc@[j as int]));
        }
        push_char(&mut out, uc[j]);
        j = j + 1;
    }
    proof {
        assert(uc@.take(uc@.len() as int) =~= uc@);
    }
    let mut i: usize = 1;
    proof {
        assert(input@.skip(1).skip(0) =~= input@.skip(1));
        assert(capitalized_of(input@) == upper_char_of(first) + lowered_of(input@.drop_first()));
        assert(input@.drop_first() =~= input@.skip(1));
    }
    while i < len
        invariant
            1 <= i <= len,
            len == input@.len(),
            capitalized_of(input@) == out@ + lowered_of(input@.skip(i as int)),
        decreases len - i,
    {
        let c = input.get_char(i);
        proof {
            assert(input@.skip(i as int)[0] == input@[i as int]);
            assert(input@.skip(i as int).drop_first() =~= input@.skip(i + 1));
        }
        let lc = lower_char(c);
        let mut j2: usize = 0;
        proof {
            assert(out@ + lc@.take(0) =~= out@);
        }
        let ghost out0 = out@;
        while j2 < lc.len()
            invariant
                j2 <= lc.len(),
                out@ == out0 + lc@.take(j2 as int),
            decreases lc.len() - j2,
        {
            proof {
                assert(lc@.take(j2 + 1) =~= lc@.take(j2 as int).push(lc@[j2 as int]));
            }
            push_char(&mut out, lc[j2]);
            j2 = j2 + 1;
        }
        proof {
            assert(lc@.take(lc@.len() as int) =~= lc@);
            assert((out0 + lower_char_of(c)) + lowered_of(input@.skip(i + 1)) =~= out0 + (
            lower_char_of(c) + lowered_of(input@.skip(i + 1))));
        }
        i = i + 1;
    }
    proof {
        assert(input@.skip(len as int) =~= Seq::<char>::empty());
        assert(out@ + Seq::<char>::empty() =~= out@);
    }
    out
}

/// What `canonicalize_language` yields: the alias target when the normalised
/// key is in the table (nothing when that target is the empty string), else
/// the trimmed label itself (nothing when it is empty).
pub open spec fn spec_canonicalize(s: Seq<char>) -> Option<Seq<char>> {
    let t = trimmed_of(s);
    if t.len() == 0 {
        None
    } else {
        match alias_target(normalized_key_of(t)) {
            Some(target) => if target.len() == 0 {
                None
            } else {
                Some(target)
            },
            None => Some(t),
        }
    }
}

/// Maps a free-form language label to its canonical name, or to nothing when
/// the label is empty or stands for something that is not ranked.
pub fn canonicalize_language(input: &str) -> (r: Option<String>)
    ensures
        r is Some <==> spec_canonicalize(input@) is Some,
        r is Some ==> r.unwrap()@ == spec_canonicalize(input@).unwrap(),
{
    let trimmed = trim_str(input);
    if trimmed.as_str().unicode_len() == 0 {
        return None;
    }
    let lookup_key = normalize_alias_key(trimmed.as_str());
    match alias_lookup(lookup_key.as_str()) {
        Some(target) => {
            if target.unicode_len() == 0 {
                None
            } else {
                Some(String::from_str(target))
            }
        },
        None => Some(trimmed),
    }
}

/// What `canonical_benchmark_lang` yields: the benchmark alias target when
/// the (already lower-cased) runtime identifier is in the table (nothing
/// when that target is the empty string), else the identifier capitalised.
pub open spec fn spec_canonical_benchmark_lang(s: Seq<char>) -> Option<Seq<char>> {
    match bench_alias_target(s) {
        Some(target) => if target.len() == 0 {
            None
        } else {
            Some(target)
        },
        None => Some(capitalized_of(s)),
    }
}

/// Maps a lower-cased benchmark runtime identifier to the language it
/// implements, or to nothing when it is not a ranked language.
pub fn canonical_benchmark_lang(lang_lower: &str) -> (r: Option<String>)
    ensures
        r is Some <==> spec_canonical_benchmark_lang(lang_lower@) is Some,
        r is Some ==> r.unwrap()@ == spec_canonical_benchmark_lang(lang_lower@).unwrap(),
{
    match bench_alias_lookup(lang_lower) {
        Some(target) => {
            if target.unicode_len() == 0 {
                None
            } else {
                Some(String::from_str(target))
            }
        },
        None => Some(capitalize_word(lang_lower)),
    }
}

pub open spec fn alias_target(key: Seq<char>) -> Option<Seq<char>> {
    if key == "delphi/objectpascal"@ {
        Some("Delphi/Pascal"@)
    } else if key == "matlab"@ {
        Some("Matlab"@)
    } else if key == "cobol"@ {
        Some("COBOL"@)
    } else if key == "powershell"@ {
        Some("PowerShell"@)
    } else if key == "vbscript"@ {
        Some("VBA/VBS"@)
    } else if key == "vba"@ {
        Some("VBA/VBS"@)
    } else if key == "classicvisualbasic"@ {
        Some("VBA/VBS"@)
    } else if key == "abap"@ {
        Some("Abap"@)
    } else if key == "(visual)foxpro"@ {
        Some("FoxPro"@)
    } else if key == "c"@ {
        Some("C"@)
    } else if key == "c#"@ {
        Some("C#"@)
    } else if key == "csharp"@ {
        Some("C#"@)
    } else if key == "c-sharp"@ {
        Some("C#"@)
    } else if key == "c++"@ {
        Some("C++"@)
    } else if key == "c/c++"@ {
        Some("C/C++"@)
    } else if key == "f#"@ {
        Some("F#"@)
    } else if key == "fsharp"@ {
        Some("F#"@)
    } else if key == "f-sharp"@ {
        Some("F#"@)
    } else if key == "javascript"@ {
        Some("JavaScript"@)
    } else if key == "js"@ {
        Some("JavaScript"@)
    } else if key == "node"@ {
        Some("JavaScript"@)
    } else if key == "node.js"@ {
        Some("JavaScript"@)
    } else if key == "nodejs"@ {
        Some("JavaScript"@)
    } else if key == "typescript"@ {
        Some("TypeScript"@)
    } else if key == "ts"@ {
        Some("TypeScript"@)
    } else if key == "objective-c"@ {
        Some("Objective-C"@)
    } else if key == "objectivec"@ {
        Some("Objective-C"@)
    } else if key == "obj-c"@ {
        Some("Objective-C"@)
    } else if key == "objc"@ {
        Some("Objective-C"@)
    } else if key == "golang"@ {
        Some("Go"@)
    } else if key == "go"@ {
        Some("Go"@)
    } else if key == "cpp"@ {
        Some("C++"@)
    } else if key == "vb"@ {
        Some("Visual Basic"@)
    } else if key == "vb.net"@ {
        Some("Visual Basic"@)
    } else if key == "vbnet"@ {
        Some("Visual Basic"@)
    } else if key == "visualbasic"@ {
        Some("Visual Basic"@)
    } else if key == "visualbasic.net"@ {
        Some("Visual Basic"@)
    } else if key == "cfml"@ {
        Some("CFML"@)
    } else if key == "clojure"@ {
        Some("Clojure"@)
    } else if key == "commonlisp"@ {
        Some("Lisp"@)
    } else if key == "crystal"@ {
        Some("Crystal"@)
    } else if key == "d"@ {
        Some("D"@)
    } else if key == "dart"@ {
        Some("Dart"@)
    } else if key == "elixir"@ {
        Some("Elixir"@)
    } else if key == "fortran"@ {
        Some("Fortran"@)
    } else if key == "haskell"@ {
        Some("Haskell"@)
    } else if key == "julia"@ {
        Some("Julia"@)
    } else if key == "kotlin"@ {
        Some("Kotlin"@)
    } else if key == "lua"@ {
        Some("Lua"@)
    } else if key == "luau"@ {
        Some("Luau"@)
    } else if key == "nim"@ {
        Some("Nim"@)
    } else if key == "pascal"@ {
        Some("Delphi/Pascal"@)
    } else if key == "prolog"@ {
        Some("Prolog"@)
    } else if key == "python"@ {
        Some("Python"@)
    } else if key == "r"@ {
        Some("R"@)
    } else if key == "ruby"@ {
        Some("Ruby"@)
    } else if key == "rust"@ {
        Some("Rust"@)
    } else if key == "scala"@ {
        Some("Scala"@)
    } else if key == "swift"@ {
        Some("Swift"@)
    } else if key == "ur"@ {
        Some("Ur"@)
    } else if key == "v"@ {
        Some("V"@)
    } else if key == "vala"@ {
        Some("Vala"@)
    } else if key == "zig"@ {
        Some("Zig"@)
    } else if key == "chapel"@ {
        Some("Chapel"@)
    } else if key == "clang"@ {
        Some("C/C++"@)
    } else if key == "csharpaot"@ {
        Some("C#"@)
    } else if key == "csharpcore"@ {
        Some("C#"@)
    } else if key == "dartexe"@ {
        Some("Dart"@)
    } else if key == "dartjit"@ {
        Some("Dart"@)
    } else if key == "erlang"@ {
        Some("Erlang"@)
    } else if key == "fpascal"@ {
        Some("Delphi/Pascal"@)
    } else if key == "fsharpcore"@ {
        Some("F#"@)
    } else if key == "gcc"@ {
        Some("C/C++"@)
    } else if key == "ghc"@ {
        Some("Haskell"@)
    } else if key == "gnat"@ {
        Some("Ada"@)
    } else if key == "gpp"@ {
        Some("C/C++"@)
    } else if key == "graalvm"@ {
        Some("Graal"@)
    } else if key == "icx"@ {
        Some("C/C++"@)
    } else if key == "ifc"@ {
        Some("Fortran"@)
    } else if key == "ifx"@ {
        Some("Fortran"@)
    } else if key == "java"@ {
        Some("Java"@)
    } else if key == "javaxint"@ {
        Some("Java"@)
    } else if key == "micropython"@ {
        Some("Python"@)
    } else if key == "mri"@ {
        Some("Ruby"@)
    } else if key == "ocaml"@ {
        Some("OCaml"@)
    } else if key == "openj9"@ {
        Some("Java"@)
    } else if key == "perl"@ {
        Some("Perl"@)
    } else if key == "pharo"@ {
        Some("Smalltalk"@)
    } else if key == "php"@ {
        Some("PHP"@)
    } else if key == "python3"@ {
        Some("Python"@)
    } else if key == "racket"@ {
        Some("Racket"@)
    } else if key == "sbcl"@ {
        Some("Lisp"@)
    } else if key == "toit"@ {
        Some("Toit"@)
    } else if key == "vw"@ {
        Some(""@)
    } else {
        None
    }
}

pub fn alias_lookup(key: &str) -> (r: Option<&'static str>)
    ensures
        r is Some <==> alias_target(key@) is Some,
        r is Some ==> r.unwrap()@ == alias_target(key@).unwrap(),
{
    if str_eq(key, "delphi/objectpascal") {
        Some("Delphi/Pascal")
    } else if str_eq(key, "matlab") {
        Some("Matlab")
    } else if str_eq(key, "cobol") {
        Some("COBOL")
    } else if str_eq(key, "powershell") {
        Some("PowerShell")
    } else if str_eq(key, "vbscript") {
        Some("VBA/VBS")
    } else if str_eq(key, "vba") {
        Some("VBA/VBS")
    } else if str_eq(key, "classicvisualbasic") {
        Some("VBA/VBS")
    } else if str_eq(key, "abap") {
        Some("Abap")
    } else if str_eq(key, "(visual)foxpro") {
        Some("FoxPro")
    } else if str_eq(key, "c") {
        Some("C")
    } else if str_eq(key, "c#") {
        Some("C#")
    } else if str_eq(key, "csharp") {
        Some("C#")
    } else if str_eq(key, "c-sharp") {
        Some("C#")
    } else if str_eq(key, "c++") {
        Some("C++")
    } else if str_eq(key, "c/c++") {
        Some("C/C++")
    } else if str_eq(key, "f#") {
        Some("F#")
    } else if str_eq(key, "fsharp") {
        Some("F#")
    } else if str_eq(key, "f-sharp") {
        Some("F#")
    } else if str_eq(key, "javascript") {
        Some("JavaScript")
    } else if str_eq(key, "js") {
        Some("JavaScript")
    } else if str_eq(key, "node") {
        Some("JavaScript")
    } else if str_eq(key, "node.js") {
        Some("JavaScript")
    } else if str_eq(key, "nodejs") {
        Some("JavaScript")
    } else if str_eq(key, "typescript") {
        Some("TypeScript")
    } else if str_eq(key, "ts") {
        Some("TypeScript")
    } else if str_eq(key, "objective-c") {
        Some("Objective-C")
    } else if str_eq(key, "objectivec") {
        Some("Objective-C")
    } else if str_eq(key, "obj-c") {
        Some("Objective-C")
    } else if str_eq(key, "objc") {
        Some("Objective-C")
    } else if str_eq(key, "golang") {
        Some("Go")
    } else if str_eq(key, "go") {
        Some("Go")
    } else if str_eq(key, "cpp") {
        Some("C++")
    } else if str_eq(key, "vb") {
        Some("Visual Basic")
    } else if str_eq(key, "vb.net") {
        Some("Visual Basic")
    } else if str_eq(key, "vbnet") {
        Some("Visual Basic")
    } else if str_eq(key, "visualbasic") {
        Some("Visual Basic")
    } else if str_eq(key, "visualbasic.net") {
        Some("Visual Basic")
    } else if str_eq(key, "cfml") {
        Some("CFML")
    } else if str_eq(key, "clojure") {
        Some("Clojure")
    } else if str_eq(key, "commonlisp") {
        Some("Lisp")
    } else if str_eq(key, "crystal") {
        Some("Crystal")
    } else if str_eq(key, "d") {
        Some("D")
    } else if str_eq(key, "dart") {
        Some("Dart")
    } else if str_eq(key, "elixir") {
        Some("Elixir")
    } else if str_eq(key, "fortran") {
        Some("Fortran")
    } else if str_eq(key, "haskell") {
        Some("Haskell")
    } else if str_eq(key, "julia") {
        Some("Julia")
    } else if str_eq(key, "kotlin") {
        Some("Kotlin")
    } else if str_eq(key, "lua") {
        Some("Lua")
    } else if str_eq(key, "luau") {
        Some("Luau")
    } else if str_eq(key, "nim") {
        Some("Nim")
    } else if str_eq(key, "pascal") {
        Some("Delphi/Pascal")
    } else if str_eq(key, "prolog") {
        Some("Prolog")
    } else if str_eq(key, "python") {
        Some("Python")
    } else if str_eq(key, "r") {
        Some("R")
    } else if str_eq(key, "ruby") {
        Some("Ruby")
    } else if str_eq(key, "rust") {
        Some("Rust")
    } else if str_eq(key, "scala") {
        Some("Scala")
    } else if str_eq(key, "swift") {
        Some("Swift")
    } else if str_eq(key, "ur") {
        Some("Ur")
    } else if str_eq(key, "v") {
        Some("V")
    } else if str_eq(key, "vala") {
        Some("Vala")
    } else if str_eq(key, "zig") {
        Some("Zig")
    } else if str_eq(key, "chapel") {
        Some("Chapel")
    } else if str_eq(key, "clang") {
        Some("C/C++")
    } else if str_eq(key, "csharpaot") {
        Some("C#")
    } else if str_eq(key, "csharpcore") {
        Some("C#")
    } else if str_eq(key, "dartexe") {
        Some("Dart")
    } else if str_eq(key, "dartjit") {
        Some("Dart")
    } else if str_eq(key, "erlang") {
        Some("Erlang")
    } else if str_eq(key, "fpascal") {
        Some("Delphi/Pascal")
    } else if str_eq(key, "fsharpcore") {
        Some("F#")
    } else if str_eq(key, "gcc") {
        Some("C/C++")
    } else if str_eq(key, "ghc") {
        Some("Haskell")
    } else if str_eq(key, "gnat") {
        Some("Ada")
    } else if str_eq(key, "gpp") {
        Some("C/C++")
    } else if str_eq(key, "graalvm") {
        Some("Graal")
    } else if str_eq(key, "icx") {
        Some("C/C++")
    } else if str_eq(key, "ifc") {
        Some("Fortran")
    } else if str_eq(key, "ifx") {
        Some("Fortran")
    } else if str_eq(key, "java") {
        Some("Java")
    } else if str_eq(key, "javaxint") {
        Some("Java")
    } else if str_eq(key, "micropython") {
        Some("Python")
    } else if str_eq(key, "mri") {
        Some("Ruby")
    } else if str_eq(key, "ocaml") {
        Some("OCaml")
    } else if str_eq(key, "openj9") {
        Some("Java")
    } else if str_eq(key, "perl") {
        Some("Perl")
    } else if str_eq(key, "pharo") {
        Some("Smalltalk")
    } else if str_eq(key, "php") {
        Some("PHP")
    } else if str_eq(key, "python3") {
        Some("Python")
    } else if str_eq(key, "racket") {
        Some("Racket")
    } else if str_eq(key, "sbcl") {
        Some("Lisp")
    } else if str_eq(key, "toit") {
        Some("Toit")
    } else if str_eq(key, "vw") {
        Some("")
    } else {
        None
    }
}

pub open spec fn bench_alias_target(key: Seq<char>) -> Option<Seq<char>> {
    if key == "chapel"@ {
        Some("Chapel"@)
    } else if key == "clang"@ {
        Some("C/C++"@)
    } else if key == "csharpaot"@ {
        Some("C#"@)
    } else if key == "csharpcore"@ {
        Some("C#"@)
    } else if key == "dartexe"@ {
        Some("Dart"@)
    } else if key == "dartjit"@ {
        Some("Dart"@)
    } else if key == "erlang"@ {
        Some("Erlang"@)
    } else if key == "fpascal"@ {
        Some("Free Pascal"@)
    } else if key == "fsharpcore"@ {
        Some("F#"@)
    } else if key == "gcc"@ {
        Some("C/C++"@)
    } else if key == "ghc"@ {
        Some("Haskell"@)
    } else if key == "gnat"@ {
        Some("Ada"@)
    } else if key == "go"@ {
        Some("Go"@)
    } else if key == "gpp"@ {
        Some("C/C++"@)
    } else if key == "graalvm"@ {
        Some("Graal"@)
    } else if key == "icx"@ {
        Some("C/C++"@)
    } else if key == "ifc"@ {
        Some("Fortran"@)
    } else if key == "ifx"@ {
        Some("Fortran"@)
    } else if key == "java"@ {
        Some("Java"@)
    } else if key == "javaxint"@ {
        Some("Java"@)
    } else if key == "julia"@ {
        Some("Julia"@)
    } else if key == "lua"@ {
        Some("Lua"@)
    } else if key == "micropython"@ {
        Some("Python"@)
    } else if key == "mri"@ {
        Some("Ruby"@)
    } else if key == "node"@ {
        Some("JavaScript"@)
    } else if key == "ocaml"@ {
        Some("OCaml"@)
    } else if key == "openj9"@ {
        Some("Java"@)
    } else if key == "perl"@ {
        Some("Perl"@)
    } else if key == "pharo"@ {
        Some("Smalltalk"@)
    } else if key == "php"@ {
        Some("PHP"@)
    } else if key == "python3"@ {
        Some("Python"@)
    } else if key == "racket"@ {
        Some("Racket"@)
    } else if key == "ruby"@ {
        Some("Ruby"@)
    } else if key == "rust"@ {
        Some("Rust"@)
    } else if key == "sbcl"@ {
        Some("Lisp"@)
    } else if key == "swift"@ {
        Some("Swift"@)
    } else if key == "toit"@ {
        Some("Toit"@)
    } else if key == "vw"@ {
        Some(""@)
    } else {
        None
    }
}

pub fn bench_alias_lookup(key: &str) -> (r: Option<&'static str>)
    ensures
        r is Some <==> bench_alias_target(key@) is Some,
        r is Some ==> r.unwrap()@ == bench_alias_target(key@).unwrap(),
{
    if str_eq(key, "chapel") {
        Some("Chapel")
    } else if str_eq(key, "clang") {
        Some("C/C++")
    } else if str_eq(key, "csharpaot") {
        Some("C#")
    } else if str_eq(key, "csharpcore") {
        Some("C#")
    } else if str_eq(key, "dartexe") {
        Some("Dart")
    } else if str_eq(key, "dartjit") {
        Some("Dart")
    } else if str_eq(key, "erlang") {
        Some("Erlang")
    } else if str_eq(key, "fpascal") {
        Some("Free Pascal")
    } else if str_eq(key, "fsharpcore") {
        Some("F#")
    } else if str_eq(key, "gcc") {
        Some("C/C++")
    } else if str_eq(key, "ghc") {
        Some("Haskell")
    } else if str_eq(key, "gnat") {
        Some("Ada")
    } else if str_eq(key, "go") {
        Some("Go")
    } else if str_eq(key, "gpp") {
        Some("C/C++")
    } else if str_eq(key, "graalvm") {
        Some("Graal")
    } else if str_eq(key, "icx") {
        Some("C/C++")
    } else if str_eq(key, "ifc") {
        Some("Fortran")
    } else if str_eq(key, "ifx") {
        Some("Fortran")
    } else if str_eq(key, "java") {
        Some("Java")
    } else if str_eq(key, "javaxint") {
        Some("Java")
    } else if str_eq(key, "julia") {
        Some("Julia")
    } else if str_eq(key, "lua") {
        Some("Lua")
    } else if str_eq(key, "micropython") {
        Some("Python")
    } else if str_eq(key, "mri") {
        Some("Ruby")
    } else if str_eq(key, "node") {
        Some("JavaScript")
    } else if str_eq(key, "ocaml") {
        Some("OCaml")
    } else if str_eq(key, "openj9") {
        Some("Java")
    } else if str_eq(key, "perl") {
        Some("Perl")
    } else if str_eq(key, "pharo") {
        Some("Smalltalk")
    } else if str_eq(key, "php") {
        Some("PHP")
    } else if str_eq(key, "python3") {
        Some("Python")
    } else if str_eq(key, "racket") {
        Some("Racket")
    } else if str_eq(key, "ruby") {
        Some("Ruby")
    } else if str_eq(key, "rust") {
        Some("Rust")
    } else if str_eq(key, "sbcl") {
        Some("Lisp")
    } else if str_eq(key, "swift") {
        Some("Swift")
    } else if str_eq(key, "toit") {
        Some("Toit")
    } else if str_eq(key, "vw") {
        Some("")
    } else {
        None
    }
}

} // verus!
