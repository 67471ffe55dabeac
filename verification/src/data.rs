//! The definitions of languages and families that come with the library.

use vstd::prelude::*;

use crate::json;
use crate::lang;
use crate::lang::{Registry, RegistryError};

verus! {

/// The definitions of languages that the library comes with: what the comments
/// and strings of each look like, and which files are written in it. Delimiters
/// stand as they would in a string literal, with a backslash before each quote.
/// The definitions are one JSON object; this is its beginning.
pub const A_TO_F: &'static str = r####"{
 "languages": {
  "Abap": {"line_comment": ["*", "\\\""], "extensions": ["abap"]},
  "Abnf": {"line_comment": [";"], "quotes": [["\\\"", "\\\""]], "name": "ABNF", "extensions": ["abnf"]},
  "ActionScript": {"line_comment": ["//"], "multi_line_comments": [["/*", "*/"]], "quotes": [["\\\"", "\\\""]], "extensions": ["as"]},
  "Ada": {"line_comment": ["--"], "extensions": ["ada", "adb", "ads", "pad"]},
  "Agda": {"line_comment": ["--"], "multi_line_comments": [["{-", "-}"]], "nested": true, "quotes": [["\\\"", "\\\""]], "extensions": ["agda"]},
  "Alex": {"extensions": ["x"]},
  "Alloy": {"line_comment": ["--", "//"], "multi_line_comments": [["/*", "*/"]], "quotes": [["\\\"", "\\\""]], "extensions": ["als"]},
  "Apl": {"line_comment": ["⍝"], "quotes": [["'", "'"]], "name": "APL", "extensions": ["apl", "aplf", "apls"]},
  "AppleScript": {"line_comment": ["#", "--"], "multi_line_comments": [["(*", "*)"]], "quotes": [["\\\"", "\\\""]], "extensions": ["applescript"]},
  "Arduino": {"line_comment": ["//"], "multi_line_comments": [["/*", "*/"]], "quotes": [["\\\"", "\\\""]], "name": "Arduino C++", "extensions": ["ino"]},
  "ArkTs": {"line_comment": ["//"], "multi_line_comments": [["/*", "*/"]], "quotes": [["\\\"", "\\\""], ["'", "'"], ["`", "`"]], "name": "ArkTS", "extensions": ["ets"]},
  "Arturo": {"line_comment": [";"], "quotes": [["\\\"", "\\\""]], "extensions": ["art"]},
  "AsciiDoc": {"name": "AsciiDoc", "literate": true, "line_comment": ["//"], "multi_line_comments": [["////", "////"]], "extensions": ["adoc", "asciidoc"]},
  "Asn1": {"line_comment": ["--"], "multi_line_comments": [["/*", "*/"]], "quotes": [["\\\"", "\\\""], ["'", "'"]], "name": "ASN.1", "extensions": ["asn1"]},
  "Asp": {"name": "ASP", "line_comment": ["'", "REM"], "extensions": ["asa", "asp"]},
  "AspNet": {"multi_line_comments": [["<!--", "-->"], ["<%--", "--%>"]], "name": "ASP.NET", "extensions": ["asax", "ascx", "asmx", "aspx", "master", "sitemap", "webinfo"]},
  "Assembly": {"line_comment": [";"], "quotes": [["\\\"", "\\\""], ["'", "'"]], "extensions": ["asm"]},
  "AssemblyGas": {"line_comment": ["//"], "multi_line_comments": [["/*", "*/"]], "quotes": [["\\\"", "\\\""]], "name": "GNU Style Assembly", "extensions": ["s"]},
  "Astro": {"line_comment": ["//"], "multi_line_comments": [["/*", "*/"], ["<!--", "-->"]], "quotes": [["\\\"", "\\\""], ["'", "'"], ["`", "`"]], "extensions": ["astro"]},
  "Ats": {"line_comment": ["//"], "multi_line_comments": [["(*", "*)"], ["/*", "*/"]], "quotes": [["\\\"", "\\\""]], "name": "ATS", "extensions": ["dats", "hats", "sats", "atxt"]},
  "AutoHotKey": {"name": "AutoHotKey", "line_comment": [";"], "multi_line_comments": [["/*", "*/"]], "extensions": ["ahk"]},
  "Autoconf": {"line_comment": ["#", "dnl"], "extensions": ["in"]},
  "Autoit": {"line_comment": [";"], "multi_line_comments": [["#comments-start", "#comments-end"], ["#cs", "#ce"]], "quotes": [["\\\"", "\\\""], ["'", "'"]], "name": "AutoIt", "extensions": ["au3"]},
  "Automake": {"line_comment": ["#"], "extensions": ["am"]},
  "AvaloniaXaml": {"multi_line_comments": [["<!--", "-->"]], "quotes": [["\\\"", "\\\""], ["'", "'"]], "name": "AXAML", "extensions": ["axaml"]},
  "Awk": {"line_comment": ["#"], "name": "AWK", "quotes": [["\\\"", "\\\""]], "extensions": ["awk"]},
  "Ballerina": {"line_comment": ["//", "#"], "quotes": [["\\\"", "\\\""]], "extensions": ["bal"]},
  "Bash": {"line_comment": ["#"], "quotes": [["\\\"", "\\\""], ["'", "'"]], "name": "BASH", "filenames": ["bashrc"], "extensions": ["bash"]},
  "Batch": {"line_comment": ["REM", "::"], "extensions": ["bat", "btm", "cmd"]},
  "Bazel": {"line_comment": ["#"], "quotes": [["\\\"", "\\\""], ["'", "'"]], "filenames": ["build", "workspace", "module"], "doc_quotes": [["\\\"\\\"\\\"", "\\\"\\\"\\\""]], "extensions": ["bzl", "bazel", "bzlmod"]},
  "Bean": {"line_comment": [";"], "quotes": [["\\\"", "\\\""]], "name": "Beancount", "extensions": ["bean", "beancount"]},
  "BibTex": {"line_comment": ["%"], "name": "BibTeX", "extensions": ["bib"]},
  "Bicep": {"line_comment": ["//"], "multi_line_comments": [["/*", "*/"]], "quotes": [["'", "'"]], "doc_quotes": [["'''", "'''"]], "extensions": ["bicep", "bicepparam"]},
  "Bitbake": {"line_comment": ["#"], "quotes": [["\\\"", "\\\""], ["'", "'"]], "extensions": ["bb", "bbclass", "bbappend", "inc"]},
  "Blade": {"multi_line_comments": [["<!--", "-->"], ["{{--", "--}}"]], "quotes": [["\\\"", "\\\""], ["'", "'"]], "name": "Blade"},
  "Blueprint": {"line_comment": ["//"], "multi_line_comments": [["/*", "*/"]], "quotes": [["\\\"", "\\\""], ["'", "'"]], "name": "Blueprint", "extensions": ["blp"]},
  "Bqn": {"line_comment": ["#"], "quotes": [["\\\"", "\\\""], ["'", "'"]], "name": "BQN", "extensions": ["bqn"]},
  "BrightScript": {"line_comment": ["'", "REM"], "quotes": [["\\\"", "\\\""]], "extensions": ["brs"]},
  "C": {"line_comment": ["//"], "multi_line_comments": [["/*", "*/"]], "quotes": [["\\\"", "\\\""]], "extensions": ["c", "ec", "pgc"]},
  "CHeader": {"line_comment": ["//"], "multi_line_comments": [["/*", "*/"]], "quotes": [["\\\"", "\\\""]], "name": "C Header", "extensions": ["h"]},
  "CMake": {"line_comment": ["#"], "quotes": [["\\\"", "\\\""]], "filenames": ["cmakelists.txt"], "name": "CMake", "extensions": ["cmake"]},
  "CSharp": {"line_comment": ["//"], "multi_line_comments": [["/*", "*/"]], "quotes": [["\\\"", "\\\""]], "name": "C#", "verbatim_quotes": [["@\\\"", "\\\""]], "extensions": ["cs", "csx"]},
  "CShell": {"line_comment": ["#"], "name": "C Shell", "extensions": ["csh"]},
  "Cabal": {"line_comment": ["--"], "multi_line_comments": [["{-", "-}"]], "nested": true, "extensions": ["cabal"]},
  "Cairo": {"line_comment": ["//"], "quotes": [["\\\"", "\\\""], ["'", "'"]], "extensions": ["cairo"]},
  "Cangjie": {"line_comment": ["//"], "multi_line_comments": [["/*", "*/"]], "quotes": [["\\\"", "\\\""]], "nested": true, "extensions": ["cj"]},
  "Cassius": {"line_comment": ["//"], "multi_line_comments": [["/*", "*/"]], "quotes": [["\\\"", "\\\""], ["'", "'"]], "extensions": ["cassius"]},
  "Ceylon": {"line_comment": ["//"], "multi_line_comments": [["/*", "*/"]], "quotes": [["\\\"", "\\\""], ["\\\"\\\"\\\"", "\\\"\\\"\\\""]], "extensions": ["ceylon"]},
  "Chapel": {"line_comment": ["//"], "multi_line_comments": [["/*", "*/"]], "quotes": [["\\\"", "\\\""], ["'", "'"]], "extensions": ["chpl"]},
  "Cil": {"line_comment": [";"], "quotes": [["\\\"", "\\\""]], "name": "CIL (SELinux)", "extensions": ["cil"]},
  "Circom": {"line_comment": ["//"], "multi_line_comments": [["/*", "*/"]], "quotes": [["\\\"", "\\\""]], "extensions": ["circom"]},
  "Clojure": {"line_comment": [";"], "quotes": [["\\\"", "\\\""]], "extensions": ["clj"]},
  "ClojureC": {"line_comment": [";"], "quotes": [["\\\"", "\\\""]], "extensions": ["cljc"]},
  "ClojureScript": {"line_comment": [";"], "quotes": [["\\\"", "\\\""]], "extensions": ["cljs"]},
  "Cobol": {"line_comment": ["*"], "name": "COBOL", "extensions": ["cob", "cbl", "ccp", "cobol", "cpy"]},
  "CodeQl": {"line_comment": ["//"], "multi_line_comments": [["/*", "*/"]], "quotes": [["\\\"", "\\\""]], "name": "CodeQL", "extensions": ["ql", "qll"]},
  "CoffeeScript": {"line_comment": ["#"], "multi_line_comments": [["###", "###"]], "quotes": [["\\\"", "\\\""], ["'", "'"]], "extensions": ["coffee", "cjsx"]},
  "Cogent": {"line_comment": ["--"], "quotes": [["\\\"", "\\\""]], "extensions": ["cogent"]},
  "ColdFusion": {"multi_line_comments": [["<!---", "--->"]], "quotes": [["\\\"", "\\\""], ["'", "'"]], "extensions": ["cfm"]},
  "ColdFusionScript": {"line_comment": ["//"], "multi_line_comments": [["/*", "*/"]], "quotes": [["\\\"", "\\\""]], "name": "ColdFusion CFScript", "extensions": ["cfc"]},
  "Coq": {"multi_line_comments": [["(*", "*)"]], "quotes": [["\\\"", "\\\""]], "nested": true, "extensions": ["v"]},
  "Cpp": {"line_comment": ["//"], "multi_line_comments": [["/*", "*/"]], "quotes": [["\\\"", "\\\""]], "name": "C++", "verbatim_quotes": [["R\\\"(", ")\\\""]], "extensions": ["cc", "cpp", "cxx", "c++", "pcc", "tpp"]},
  "CppHeader": {"line_comment": ["//"], "multi_line_comments": [["/*", "*/"]], "quotes": [["\\\"", "\\\""]], "name": "C++ Header", "extensions": ["hh", "hpp", "hxx", "inl", "ipp"]},
  "CppModule": {"line_comment": ["//"], "multi_line_comments": [["/*", "*/"]], "quotes": [["\\\"", "\\\""]], "name": "C++ Module", "extensions": ["cppm", "ixx", "ccm", "mpp", "mxx", "cxxm"]},
  "Crystal": {"line_comment": ["#"], "quotes": [["\\\"", "\\\""]], "extensions": ["cr"]},
  "Css": {"line_comment": ["//"], "multi_line_comments": [["/*", "*/"]], "quotes": [["\\\"", "\\\""], ["'", "'"]], "name": "CSS", "extensions": ["css"]},
  "Cuda": {"line_comment": ["//"], "multi_line_comments": [["/*", "*/"]], "quotes": [["\\\"", "\\\""]], "name": "CUDA", "extensions": ["cu"]},
  "Cue": {"line_comment": ["//"], "quotes": [["\\\"", "\\\""], ["'", "'"]], "doc_quotes": [["\\\"\\\"\\\"", "\\\"\\\"\\\""]], "name": "CUE", "extensions": ["cue"]},
  "Cython": {"line_comment": ["#"], "quotes": [["\\\"", "\\\""], ["'", "'"]], "doc_quotes": [["\\\"\\\"\\\"", "\\\"\\\"\\\""], ["'''", "'''"]], "extensions": ["pyx", "pxd", "pxi"]},
  "D": {"line_comment": ["//"], "multi_line_comments": [["/*", "*/"]], "quotes": [["\\\"", "\\\""]], "nested_comments": [["/+", "+/"]], "extensions": ["d"]},
  "D2": {"line_comment": ["#"], "multi_line_comments": [["\\\"\\\"\\\"", "\\\"\\\"\\\""]], "extensions": ["d2"]},
  "Dafny": {"line_comment": ["//"], "multi_line_comments": [["/*", "*/"]], "quotes": [["\\\"", "\\\""]], "extensions": ["dfy"]},
  "Daml": {"line_comment": ["--"], "multi_line_comments": [["{-", "-}"]], "nested": true, "quotes": [["\\\"", "\\\""]], "name": "DAML", "extensions": ["daml"]},
  "Dart": {"line_comment": ["//"], "multi_line_comments": [["/*", "*/"]], "quotes": [["\\\"", "\\\""], ["'", "'"]], "doc_quotes": [["\\\"\\\"\\\"", "\\\"\\\"\\\""], ["'''", "'''"]], "extensions": ["dart"]},
  "DeviceTree": {"line_comment": ["//"], "multi_line_comments": [["/*", "*/"]], "quotes": [["\\\"", "\\\""], ["'", "'"]], "extensions": ["dts", "dtsi"]},
  "Dhall": {"line_comment": ["--"], "multi_line_comments": [["{-", "-}"]], "nested": true, "quotes": [["\\\"", "\\\""], ["''", "''"]], "extensions": ["dhall"]},
  "Dockerfile": {"line_comment": ["#"], "filenames": ["dockerfile"], "quotes": [["\\\"", "\\\""], ["'", "'"]], "extensions": ["dockerfile", "dockerignore"]},
  "DotNetResource": {"multi_line_comments": [["<!--", "-->"]], "quotes": [["\\\"", "\\\""], ["'", "'"]], "name": ".NET Resource", "extensions": ["resx"]},
  "DreamMaker": {"line_comment": ["//"], "multi_line_comments": [["/*", "*/"]], "quotes": [["\\\"", "\\\""]], "nested": true, "extensions": ["dm", "dme"]},
  "Dust": {"multi_line_comments": [["{!", "!}"]], "name": "Dust.js", "extensions": ["dust"]},
  "Ebuild": {"line_comment": ["#"], "quotes": [["\\\"", "\\\""], ["'", "'"]], "extensions": ["ebuild", "eclass"]},
  "EdgeDb": {"line_comment": ["#"], "quotes": [["\\\"", "\\\""], ["'", "'"]], "name": "EdgeQL", "extensions": ["edgeql", "esdl"]},
  "Edn": {"line_comment": [";"], "quotes": [["\\\"", "\\\""]], "name": "EDN", "extensions": ["edn"]},
  "Elisp": {"line_comment": [";"], "name": "Emacs Lisp", "quotes": [["\\\"", "\\\""]], "extensions": ["el"]},
  "Elixir": {"line_comment": ["#"], "quotes": [["\\\"", "\\\""]], "doc_quotes": [["\\\"\\\"\\\"", "\\\"\\\"\\\""]], "extensions": ["ex", "exs"]},
  "Elm": {"line_comment": ["--"], "multi_line_comments": [["{-", "-}"]], "nested": true, "quotes": [["\\\"", "\\\""]], "extensions": ["elm"]},
  "Elvish": {"line_comment": ["#"], "quotes": [["\\\"", "\\\""], ["'", "'"]], "extensions": ["elv"]},
  "EmacsDevEnv": {"line_comment": [";"], "quotes": [["\\\"", "\\\""]], "name": "Emacs Dev Env", "extensions": ["ede"]},
  "Emojicode": {"line_comment": ["💭"], "multi_line_comments": [["💭🔜", "🔚💭"]], "quotes": [["❌🔤", "❌🔤"]], "extensions": ["emojic", "🍇"]},
  "Erlang": {"line_comment": ["%"], "quotes": [["\\\"", "\\\""]], "extensions": ["erl", "hrl"]},
  "FSharp": {"line_comment": ["//"], "multi_line_comments": [["(*", "*)"]], "quotes": [["\\\"", "\\\""]], "verbatim_quotes": [["@\\\"", "\\\""]], "name": "F#", "extensions": ["fs", "fsi", "fsx", "fsscript"]},
  "Factor": {"line_comment": ["!"], "multi_line_comments": [["/*", "*/"]], "extensions": ["factor"]},
  "Fennel": {"line_comment": [";"], "quotes": [["\\\"", "\\\""]], "extensions": ["fnl", "fnlm"]},
  "Fish": {"line_comment": ["#"], "quotes": [["\\\"", "\\\""], ["'", "'"]], "extensions": ["fish"]},
  "FlatBuffers": {"line_comment": ["//"], "multi_line_comments": [["/*", "*/"]], "quotes": [["\\\"", "\\\""]], "name": "FlatBuffers Schema", "extensions": ["fbs"]},
  "ForgeConfig": {"line_comment": ["#"], "name": "Forge Config", "extensions": ["cfg"]},
  "Forth": {"line_comment": ["\\\\"], "multi_line_comments": [["( ", ")"]], "name": "Forth", "extensions": ["4th", "forth", "fr", "frt", "fth", "f83", "fb", "fpm", "e4", "rx", "ft"]},
  "FortranLegacy": {"line_comment": ["c", "C", "!", "*"], "name": "FORTRAN Legacy", "quotes": [["\\\"", "\\\""], ["'", "'"]], "extensions": ["f", "for", "ftn", "f77", "pfo"]},
  "FortranModern": {"line_comment": ["!"], "name": "FORTRAN Modern", "quotes": [["\\\"", "\\\""]], "extensions": ["f03", "f08", "f90", "f95", "fpp"]},
  "FreeMarker": {"multi_line_comments": [["<#--", "-->"]], "quotes": [["\\\"", "\\\""], ["'", "'"]], "extensions": ["ftl", "ftlh", "ftlx"]},
  "Fstar": {"line_comment": ["//"], "multi_line_comments": [["(*", "*)"]], "quotes": [["\\\"", "\\\""]], "name": "F*", "extensions": ["fst", "fsti"]},
  "Futhark": {"line_comment": ["--"], "quotes": [["\\\"", "\\\""]], "extensions": ["fut"]},
"####;

/// The middle of the definitions of languages.
pub const G_TO_N: &'static str = r####"  "GdScript": {"line_comment": ["#"], "quotes": [["\\\"", "\\\""], ["'", "'"]], "name": "GDScript", "extensions": ["gd"]},
  "GdShader": {"line_comment": ["//"], "multi_line_comments": [["/*", "*/"]], "quotes": [["\\\"", "\\\""]], "name": "GDShader", "extensions": ["gdshader"]},
  "GdbScript": {"line_comment": ["#"], "name": "GDB Script", "extensions": ["gdb"]},
  "Gherkin": {"line_comment": ["#"], "name": "Gherkin (Cucumber)", "extensions": ["feature"]},
  "Gleam": {"line_comment": ["//"], "quotes": [["\\\"", "\\\""]], "extensions": ["gleam"]},
  "GlimmerJs": {"line_comment": ["//"], "multi_line_comments": [["/*", "*/"], ["<!--", "-->"]], "quotes": [["\\\"", "\\\""], ["'", "'"], ["`", "`"]], "name": "Glimmer JS", "extensions": ["gjs"]},
  "GlimmerTs": {"line_comment": ["//"], "multi_line_comments": [["/*", "*/"], ["<!--", "-->"]], "quotes": [["\\\"", "\\\""], ["'", "'"], ["`", "`"]], "name": "Glimmer TS", "extensions": ["gts"]},
  "Glsl": {"line_comment": ["//"], "multi_line_comments": [["/*", "*/"]], "quotes": [["\\\"", "\\\""]], "name": "GLSL", "extensions": ["vert", "tesc", "tese", "geom", "frag", "comp", "mesh", "task", "rgen", "rint", "rahit", "rchit", "rmiss", "rcall", "glsl"]},
  "Gml": {"line_comment": ["//"], "multi_line_comments": [["/*", "*/"]], "quotes": [["\\\"", "\\\""], ["'", "'"]], "name": "Gml", "extensions": ["gml"]},
  "Go": {"line_comment": ["//"], "multi_line_comments": [["/*", "*/"]], "quotes": [["\\\"", "\\\""]], "verbatim_quotes": [["`", "`"]], "extensions": ["go"]},
  "Gohtml": {"multi_line_comments": [["<!--", "-->"], ["{{/*", "*/}}"]], "quotes": [["\\\"", "\\\""], ["'", "'"]], "name": "Go HTML", "extensions": ["gohtml"]},
  "Gradle": {"line_comment": ["//"], "multi_line_comments": [["/*", "*/"]], "quotes": [["\\\"", "\\\""], ["'", "'"]], "extensions": ["gradle"]},
  "Graphql": {"line_comment": ["#"], "quotes": [["\\\"", "\\\""]], "doc_quotes": [["\\\"\\\"\\\"", "\\\"\\\"\\\""]], "name": "GraphQL", "extensions": ["gql", "graphql"]},
  "Groovy": {"line_comment": ["//"], "multi_line_comments": [["/*", "*/"]], "quotes": [["\\\"", "\\\""], ["'", "'"]], "extensions": ["groovy", "grt", "gtpl", "gvy"]},
  "Gwion": {"line_comment": ["#!"], "quotes": [["\\\"", "\\\""]], "extensions": ["gw"]},
  "Haml": {"line_comment": ["-#"], "quotes": [["\\\"", "\\\""], ["'", "'"]], "extensions": ["haml"]},
  "Hamlet": {"multi_line_comments": [["<!--", "-->"]], "quotes": [["\\\"", "\\\""], ["'", "'"]], "extensions": ["hamlet"]},
  "Handlebars": {"multi_line_comments": [["<!--", "-->"], ["{{!", "}}"]], "quotes": [["\\\"", "\\\""], ["'", "'"]], "extensions": ["hbs", "handlebars"]},
  "Happy": {"extensions": ["ly"]},
  "Hare": {"line_comment": ["//"], "quotes": [["\\\"", "\\\""], ["`", "`"]], "extensions": ["ha"]},
  "Haskell": {"line_comment": ["--"], "multi_line_comments": [["{-", "-}"]], "nested": true, "quotes": [["\\\"", "\\\""]], "extensions": ["hs"]},
  "Haxe": {"line_comment": ["//"], "multi_line_comments": [["/*", "*/"]], "quotes": [["\\\"", "\\\""], ["'", "'"]], "extensions": ["hx"]},
  "Hcl": {"line_comment": ["#", "//"], "multi_line_comments": [["/*", "*/"]], "quotes": [["\\\"", "\\\""]], "name": "HCL", "extensions": ["hcl", "tf", "tfvars"]},
  "Hex": {"name": "HEX", "extensions": ["hex"]},
  "Hex0": {"line_comment": ["#", ";"], "name": "Hex0", "extensions": ["hex0"]},
  "Hex1": {"line_comment": ["#", ";"], "name": "hex1", "extensions": ["hex1"]},
  "Hex2": {"line_comment": ["#", ";"], "name": "hex2", "extensions": ["hex2"]},
  "HiCad": {"line_comment": ["REM", "rem"], "name": "HICAD", "extensions": ["mac"]},
  "Hlsl": {"line_comment": ["//"], "multi_line_comments": [["/*", "*/"]], "quotes": [["\\\"", "\\\""]], "name": "HLSL", "extensions": ["hlsl"]},
  "HolyC": {"line_comment": ["//"], "multi_line_comments": [["/*", "*/"]], "quotes": [["\\\"", "\\\""]], "extensions": ["hc"]},
  "Html": {"multi_line_comments": [["<!--", "-->"]], "quotes": [["\\\"", "\\\""], ["'", "'"]], "name": "HTML", "extensions": ["html", "htm"]},
  "Hy": {"line_comment": [";"], "quotes": [["\\\"", "\\\""]], "extensions": ["hy"]},
  "Idris": {"line_comment": ["--"], "multi_line_comments": [["{-", "-}"]], "nested": true, "quotes": [["\\\"", "\\\""]], "extensions": ["idr", "lidr"]},
  "Ini": {"line_comment": [";", "#"], "name": "INI", "extensions": ["ini"]},
  "IntelHex": {"name": "Intel HEX", "extensions": ["ihex"]},
  "Isabelle": {"line_comment": ["--"], "multi_line_comments": [["{*", "*}"], ["(*", "*)"]], "quotes": [["''", "''"]], "extensions": ["thy"]},
  "Jai": {"line_comment": ["//"], "multi_line_comments": [["/*", "*/"]], "quotes": [["\\\"", "\\\""]], "name": "JAI", "extensions": ["jai"]},
  "Janet": {"line_comment": ["#"], "quotes": [["\\\"", "\\\""]], "extensions": ["janet"]},
  "Java": {"line_comment": ["//"], "multi_line_comments": [["/*", "*/"]], "quotes": [["\\\"", "\\\""]], "extensions": ["java"]},
  "JavaScript": {"line_comment": ["//"], "multi_line_comments": [["/*", "*/"]], "quotes": [["\\\"", "\\\""], ["'", "'"], ["`", "`"]], "name": "JavaScript", "extensions": ["cjs", "js", "mjs"]},
  "Jinja2": {"multi_line_comments": [["{#", "#}"]], "quotes": [["\\\"", "\\\""], ["'", "'"]], "extensions": ["j2", "jinja"]},
  "Jq": {"line_comment": ["#"], "quotes": [["\\\"", "\\\""]], "name": "jq", "extensions": ["jq"]},
  "Jslt": {"line_comment": ["//"], "quotes": [["\\\"", "\\\""]], "name": "JSLT", "extensions": ["jslt"]},
  "Json": {"name": "JSON", "extensions": ["json"]},
  "Json5": {"line_comment": ["//"], "multi_line_comments": [["/*", "*/"]], "quotes": [["\\\"", "\\\""], ["'", "'"]], "name": "JSON5", "extensions": ["json5"]},
  "Jsonnet": {"line_comment": ["//", "#"], "multi_line_comments": [["/*", "*/"]], "quotes": [["\\\"", "\\\""], ["'", "'"]], "extensions": ["jsonnet", "libsonnet"]},
  "Jsx": {"line_comment": ["//"], "multi_line_comments": [["/*", "*/"]], "quotes": [["\\\"", "\\\""], ["'", "'"], ["`", "`"]], "name": "JSX", "extensions": ["jsx"]},
  "Julia": {"line_comment": ["#"], "multi_line_comments": [["#=", "=#"]], "nested": true, "quotes": [["\\\"", "\\\""]], "doc_quotes": [["\\\"\\\"\\\"", "\\\"\\\"\\\""]], "extensions": ["jl"]},
  "Julius": {"line_comment": ["//"], "multi_line_comments": [["/*", "*/"]], "quotes": [["\\\"", "\\\""], ["'", "'"], ["`", "`"]], "name": "JavaScript (Julius)", "extensions": ["julius"]},
  "JupyterNotebook": {"name": "Jupyter Notebooks", "extensions": ["ipynb"]},
  "Just": {"line_comment": ["#"], "quotes": [["\\\"", "\\\""], ["'", "'"]], "filenames": ["justfile"], "extensions": ["just"]},
  "K": {"line_comment": ["/"], "quotes": [["\\\"", "\\\""]], "extensions": ["k"]},
  "Kaem": {"line_comment": ["#"], "extensions": ["kaem"]},
  "Kakoune": {"line_comment": ["#"], "name": "Kakoune script", "extensions": ["kak"]},
  "Kdl": {"line_comment": ["//"], "multi_line_comments": [["/*", "*/"]], "quotes": [["\\\"", "\\\""]], "name": "KDL", "extensions": ["kdl"]},
  "Koka": {"line_comment": ["//"], "multi_line_comments": [["/*", "*/"]], "quotes": [["\\\"", "\\\""]], "extensions": ["kk"]},
  "Kotlin": {"line_comment": ["//"], "multi_line_comments": [["/*", "*/"]], "quotes": [["\\\"", "\\\""]], "nested": true, "doc_quotes": [["\\\"\\\"\\\"", "\\\"\\\"\\\""]], "extensions": ["kt", "kts"]},
  "Lean": {"line_comment": ["--"], "multi_line_comments": [["/-", "-/"]], "nested": true, "quotes": [["\\\"", "\\\""]], "extensions": ["lean", "hlean"]},
  "Less": {"line_comment": ["//"], "multi_line_comments": [["/*", "*/"]], "quotes": [["\\\"", "\\\""], ["'", "'"]], "name": "LESS", "extensions": ["less"]},
  "LinguaFranca": {"line_comment": ["//", "#"], "multi_line_comments": [["/*", "*/"]], "quotes": [["\\\"", "\\\""]], "name": "Lingua Franca", "extensions": ["lf"]},
  "LinkerScript": {"line_comment": ["//"], "multi_line_comments": [["/*", "*/"]], "quotes": [["\\\"", "\\\""]], "name": "LD Script", "extensions": ["ld", "lds"]},
  "Liquid": {"multi_line_comments": [["<!--", "-->"], ["{% comment %}", "{% endcomment %}"]], "quotes": [["\\\"", "\\\""], ["'", "'"]], "extensions": ["liquid"]},
  "Lisp": {"line_comment": [";"], "multi_line_comments": [["#|", "|#"]], "quotes": [["\\\"", "\\\""]], "nested": true, "name": "Common Lisp", "extensions": ["lisp", "lsp"]},
  "LiveScript": {"line_comment": ["#"], "multi_line_comments": [["/*", "*/"]], "quotes": [["\\\"", "\\\""], ["'", "'"]], "extensions": ["ls"]},
  "Llvm": {"line_comment": [";"], "quotes": [["\\\"", "\\\""]], "name": "LLVM", "extensions": ["ll"]},
  "Logtalk": {"line_comment": ["%"], "multi_line_comments": [["/*", "*/"]], "quotes": [["\\\"", "\\\""]], "extensions": ["lgt", "logtalk"]},
  "LolCode": {"line_comment": ["BTW"], "multi_line_comments": [["OBTW", "TLDR"]], "quotes": [["\\\"", "\\\""]], "name": "LOLCODE", "extensions": ["lol"]},
  "Lua": {"line_comment": ["--"], "multi_line_comments": [["--[[", "]]"]], "quotes": [["\\\"", "\\\""], ["'", "'"]], "extensions": ["lua", "luau"]},
  "Lucius": {"line_comment": ["//"], "multi_line_comments": [["/*", "*/"]], "quotes": [["\\\"", "\\\""], ["'", "'"]], "extensions": ["lucius"]},
  "M4": {"line_comment": ["#", "dnl"], "quotes": [["`", "'"]], "extensions": ["m4"]},
  "Madlang": {"line_comment": ["#"], "multi_line_comments": [["{#", "#}"]], "extensions": ["mad"]},
  "Makefile": {"line_comment": ["#"], "filenames": ["makefile", "gnumakefile"], "extensions": ["makefile", "mak", "mk"]},
  "Markdown": {"name": "Markdown", "literate": true, "extensions": ["md", "markdown"]},
  "Max": {"extensions": ["maxpat"]},
  "Mdx": {"literate": true, "name": "MDX", "extensions": ["mdx"]},
  "Meson": {"line_comment": ["#"], "quotes": [["'", "'"], ["'''", "'''"]], "filenames": ["meson.build", "meson_options.txt"]},
  "Metal": {"line_comment": ["//"], "multi_line_comments": [["/*", "*/"]], "quotes": [["\\\"", "\\\""]], "name": "Metal Shading Language", "extensions": ["metal"]},
  "Mint": {"extensions": ["mint"]},
  "Mlatu": {"line_comment": ["#"], "quotes": [["\\\"", "\\\""]], "extensions": ["mlt"]},
  "Modelica": {"line_comment": ["//"], "multi_line_comments": [["/*", "*/"]], "quotes": [["\\\"", "\\\""], ["'", "'"]], "extensions": ["mo", "mos"]},
  "ModuleDef": {"line_comment": [";"], "name": "Module-Definition", "extensions": ["def"]},
  "Mojo": {"line_comment": ["#"], "quotes": [["\\\"", "\\\""], ["'", "'"]], "doc_quotes": [["\\\"\\\"\\\"", "\\\"\\\"\\\""], ["'''", "'''"]], "extensions": ["mojo", "🔥"]},
  "MonkeyC": {"line_comment": ["//"], "multi_line_comments": [["/*", "*/"]], "quotes": [["\\\"", "\\\""]], "name": "Monkey C", "extensions": ["mc"]},
  "MoonBit": {"line_comment": ["//"], "quotes": [["\\\"", "\\\""]], "extensions": ["mbt", "mbti"]},
  "MoonScript": {"line_comment": ["--"], "quotes": [["\\\"", "\\\""], ["'", "'"]], "extensions": ["moon"]},
  "MsBuild": {"multi_line_comments": [["<!--", "-->"]], "quotes": [["\\\"", "\\\""], ["'", "'"]], "name": "MSBuild", "extensions": ["csproj", "vbproj", "fsproj", "props", "targets"]},
  "Mustache": {"multi_line_comments": [["{{!", "}}"]], "quotes": [["\\\"", "\\\""], ["'", "'"]], "extensions": ["mustache"]},
  "NextFlow": {"line_comment": ["//"], "multi_line_comments": [["/*", "*/"]], "quotes": [["\\\"", "\\\""], ["'", "'"]], "doc_quotes": [["\\\"\\\"\\\"", "\\\"\\\"\\\""]], "name": "Nextflow", "extensions": ["nextflow"]},
  "Nim": {"line_comment": ["#"], "quotes": [["\\\"", "\\\""]], "doc_quotes": [["\\\"\\\"\\\"", "\\\"\\\"\\\""]], "extensions": ["nim"]},
  "Nix": {"line_comment": ["#"], "multi_line_comments": [["/*", "*/"]], "quotes": [["\\\"", "\\\""], ["''", "''"]], "extensions": ["nix"]},
  "Nqp": {"line_comment": ["#"], "multi_line_comments": [["=begin", "=end"]], "quotes": [["\\\"", "\\\""], ["'", "'"]], "name": "Not Quite Perl", "extensions": ["nqp"]},
  "NuGetConfig": {"multi_line_comments": [["<!--", "-->"]], "quotes": [["\\\"", "\\\""], ["'", "'"]], "filenames": ["nuget.config", "packages.config", "nugetdefaults.config"], "name": "NuGet Config"},
  "Nushell": {"line_comment": ["#"], "quotes": [["\\\"", "\\\""], ["'", "'"]], "extensions": ["nu"]},
"####;

/// The end of the definitions of languages.
pub const O_TO_Z: &'static str = r####"  "OCaml": {"multi_line_comments": [["(*", "*)"]], "nested": true, "quotes": [["\\\"", "\\\""]], "name": "OCaml", "extensions": ["ml", "mli", "mll", "mly", "re", "rei"]},
  "ObjectiveC": {"line_comment": ["//"], "multi_line_comments": [["/*", "*/"]], "quotes": [["\\\"", "\\\""]], "name": "Objective-C", "extensions": ["m"]},
  "ObjectiveCpp": {"line_comment": ["//"], "multi_line_comments": [["/*", "*/"]], "quotes": [["\\\"", "\\\""]], "name": "Objective-C++", "extensions": ["mm"]},
  "Odin": {"line_comment": ["//"], "multi_line_comments": [["/*", "*/"]], "quotes": [["\\\"", "\\\""], ["`", "`"]], "nested": true, "extensions": ["odin"]},
  "OpenCl": {"line_comment": ["//"], "multi_line_comments": [["/*", "*/"]], "quotes": [["\\\"", "\\\""]], "name": "OpenCL", "extensions": ["cl", "ocl"]},
  "OpenPolicyAgent": {"line_comment": ["#"], "quotes": [["\\\"", "\\\""], ["`", "`"]], "name": "Open Policy Agent", "extensions": ["rego"]},
  "OpenQasm": {"line_comment": ["//"], "multi_line_comments": [["/*", "*/"]], "quotes": [["\\\"", "\\\""], ["'", "'"]], "name": "OpenQASM", "extensions": ["qasm"]},
  "OpenScad": {"line_comment": ["//"], "multi_line_comments": [["/*", "*/"]], "quotes": [["\\\"", "\\\""]], "name": "OpenSCAD", "extensions": ["scad"]},
  "OpenType": {"line_comment": ["#"], "name": "OpenType Feature File", "extensions": ["fea"]},
  "Org": {"line_comment": ["# "], "literate": true, "extensions": ["org"]},
  "Oz": {"line_comment": ["%"], "multi_line_comments": [["/*", "*/"]], "quotes": [["\\\"", "\\\""]], "extensions": ["oz"]},
  "PacmanMakepkg": {"line_comment": ["#"], "quotes": [["\\\"", "\\\""], ["'", "'"]], "filenames": ["pkgbuild"], "name": "Pacman's makepkg"},
  "Pan": {"line_comment": ["#"], "quotes": [["\\\"", "\\\""], ["'", "'"]], "extensions": ["pan"]},
  "Pascal": {"line_comment": ["//"], "multi_line_comments": [["{", "}"], ["(*", "*)"]], "nested": true, "quotes": [["'", "'"]], "extensions": ["pas", "pp", "lpr"]},
  "Perl": {"line_comment": ["#"], "multi_line_comments": [["=pod", "=cut"]], "quotes": [["\\\"", "\\\""], ["'", "'"]], "extensions": ["pl", "pm"]},
  "Pest": {"line_comment": ["//"], "quotes": [["\\\"", "\\\""], ["'", "'"]], "extensions": ["pest"]},
  "Phix": {"line_comment": ["--", "//"], "multi_line_comments": [["/*", "*/"], ["--/*", "--*/"]], "quotes": [["\\\"", "\\\""], ["'", "'"]], "extensions": ["exw"]},
  "Php": {"line_comment": ["#", "//"], "multi_line_comments": [["/*", "*/"]], "quotes": [["\\\"", "\\\""], ["'", "'"]], "name": "PHP", "extensions": ["php", "php4", "php5", "php3", "phtml"]},
  "PlainText": {"name": "Plain Text", "literate": true, "extensions": ["text", "txt"]},
  "PlantUml": {"line_comment": ["'"], "multi_line_comments": [["/'", "'/"]], "quotes": [["\\\"", "\\\""]], "name": "PlantUML", "extensions": ["puml", "plantuml"]},
  "Po": {"line_comment": ["#"], "name": "PO File", "extensions": ["po", "pot"]},
  "Poke": {"multi_line_comments": [["/*", "*/"]], "quotes": [["\\\"", "\\\""]], "extensions": ["pk"]},
  "Polly": {"multi_line_comments": [["<!--", "-->"]], "quotes": [["\\\"", "\\\""], ["'", "'"]], "extensions": ["polly"]},
  "Pony": {"line_comment": ["//"], "multi_line_comments": [["/*", "*/"]], "quotes": [["\\\"", "\\\""]], "doc_quotes": [["\\\"\\\"\\\"", "\\\"\\\"\\\""]], "nested": true, "extensions": ["pony"]},
  "PostCss": {"line_comment": ["//"], "multi_line_comments": [["/*", "*/"]], "quotes": [["\\\"", "\\\""], ["'", "'"]], "name": "PostCSS", "extensions": ["pcss", "sss"]},
  "PowerShell": {"line_comment": ["#"], "multi_line_comments": [["<#", "#>"]], "quotes": [["\\\"", "\\\""], ["'", "'"]], "name": "PowerShell", "extensions": ["ps1", "psm1", "psd1", "ps1xml", "cdxml", "pssc", "psc1"]},
  "Prolog": {"line_comment": ["%"], "multi_line_comments": [["/*", "*/"]], "quotes": [["\\\"", "\\\""]], "extensions": ["p", "pro"]},
  "Protobuf": {"line_comment": ["//"], "multi_line_comments": [["/*", "*/"]], "quotes": [["\\\"", "\\\""]], "name": "Protocol Buffers", "extensions": ["proto"]},
  "Prql": {"line_comment": ["#"], "quotes": [["\\\"", "\\\""], ["'", "'"]], "name": "PRQL", "extensions": ["prql"]},
  "Psl": {"line_comment": ["//", "--"], "multi_line_comments": [["/*", "*/"]], "quotes": [["\\\"", "\\\""]], "name": "PSL Assertion", "extensions": ["psl"]},
  "Pug": {"line_comment": ["//", "//-"], "quotes": [["\\\"", "\\\""], ["'", "'"]], "extensions": ["pug", "jade"]},
  "PureScript": {"line_comment": ["--"], "multi_line_comments": [["{-", "-}"]], "nested": true, "quotes": [["\\\"", "\\\""]], "name": "PureScript", "extensions": ["purs"]},
  "Pyret": {"line_comment": ["#"], "multi_line_comments": [["#|", "|#"]], "nested": true, "quotes": [["\\\"", "\\\""], ["'", "'"]], "extensions": ["arr"]},
  "Python": {"line_comment": ["#"], "quotes": [["\\\"", "\\\""], ["'", "'"]], "doc_quotes": [["\\\"\\\"\\\"", "\\\"\\\"\\\""], ["'''", "'''"]], "extensions": ["py", "pyw", "pyi"]},
  "Q": {"line_comment": ["/"], "quotes": [["\\\"", "\\\""]], "extensions": ["q"]},
  "Qcl": {"line_comment": ["//"], "multi_line_comments": [["/*", "*/"]], "quotes": [["\\\"", "\\\""]], "name": "QCL", "extensions": ["qcl"]},
  "Qml": {"line_comment": ["//"], "multi_line_comments": [["/*", "*/"]], "quotes": [["\\\"", "\\\""], ["'", "'"]], "name": "QML", "extensions": ["qml"]},
  "R": {"line_comment": ["#"], "quotes": [["\\\"", "\\\""], ["'", "'"]], "extensions": ["r"]},
  "Racket": {"line_comment": [";"], "multi_line_comments": [["#|", "|#"]], "quotes": [["\\\"", "\\\""]], "nested": true, "extensions": ["rkt", "scrbl"]},
  "Rakefile": {"line_comment": ["#"], "multi_line_comments": [["=begin", "=end"]], "quotes": [["\\\"", "\\\""], ["'", "'"]], "filenames": ["rakefile"], "extensions": ["rake"]},
  "Raku": {"line_comment": ["#"], "multi_line_comments": [["=begin comment", "=end comment"]], "quotes": [["\\\"", "\\\""], ["'", "'"]], "extensions": ["raku", "rakumod", "rakutest", "pm6", "pl6", "p6"]},
  "Razor": {"line_comment": ["//"], "multi_line_comments": [["<!--", "-->"], ["@*", "*@"]], "quotes": [["\\\"", "\\\""]], "extensions": ["cshtml", "razor"]},
  "ReScript": {"line_comment": ["//"], "multi_line_comments": [["/*", "*/"]], "quotes": [["\\\"", "\\\""]], "extensions": ["res", "resi"]},
  "ReStructuredText": {"literate": true, "name": "ReStructuredText", "extensions": ["rst"]},
  "Redscript": {"line_comment": ["//"], "multi_line_comments": [["/*", "*/"]], "quotes": [["\\\"", "\\\""]], "nested": true, "extensions": ["reds"]},
  "Renpy": {"line_comment": ["#"], "quotes": [["\\\"", "\\\""], ["'", "'"], ["`", "`"]], "name": "Ren'Py", "extensions": ["rpy"]},
  "Roc": {"line_comment": ["#"], "quotes": [["\\\"", "\\\""]], "doc_quotes": [["\\\"\\\"\\\"", "\\\"\\\"\\\""]], "extensions": ["roc"]},
  "Ron": {"line_comment": ["//"], "multi_line_comments": [["/*", "*/"]], "quotes": [["\\\"", "\\\""]], "nested": true, "name": "Rusty Object Notation", "extensions": ["ron"]},
  "RpmSpecfile": {"line_comment": ["#"], "name": "RPM Specfile", "extensions": ["spec"]},
  "Ruby": {"line_comment": ["#"], "multi_line_comments": [["=begin", "=end"]], "quotes": [["\\\"", "\\\""], ["'", "'"]], "extensions": ["rb"]},
  "RubyHtml": {"multi_line_comments": [["<!--", "-->"]], "quotes": [["\\\"", "\\\""], ["'", "'"]], "name": "Ruby HTML", "extensions": ["rhtml", "erb"]},
  "Rust": {"line_comment": ["//"], "multi_line_comments": [["/*", "*/"]], "nested": true, "quotes": [["\\\"", "\\\""]], "verbatim_quotes": [["r##\\\"", "\\\"##"], ["r#\\\"", "\\\"#"], ["r\\\"", "\\\""]], "important_syntax": ["///", "//!"], "extensions": ["rs"]},
  "SRecode": {"line_comment": [";;"], "name": "SRecode Template", "extensions": ["srt"]},
  "Sass": {"line_comment": ["//"], "multi_line_comments": [["/*", "*/"]], "quotes": [["\\\"", "\\\""], ["'", "'"]], "extensions": ["sass", "scss"]},
  "Scala": {"line_comment": ["//"], "multi_line_comments": [["/*", "*/"]], "quotes": [["\\\"", "\\\""]], "nested": true, "doc_quotes": [["\\\"\\\"\\\"", "\\\"\\\"\\\""]], "extensions": ["sc", "scala"]},
  "Scheme": {"line_comment": [";"], "multi_line_comments": [["#|", "|#"]], "quotes": [["\\\"", "\\\""]], "nested": true, "extensions": ["scm", "ss"]},
  "Scons": {"line_comment": ["#"], "quotes": [["\\\"", "\\\""], ["'", "'"]], "doc_quotes": [["\\\"\\\"\\\"", "\\\"\\\"\\\""], ["'''", "'''"]], "filenames": ["sconstruct", "sconscript"], "name": "SCons"},
  "Sh": {"line_comment": ["#"], "quotes": [["\\\"", "\\\""], ["'", "'"]], "name": "Shell", "extensions": ["sh"]},
  "ShaderLab": {"line_comment": ["//"], "multi_line_comments": [["/*", "*/"]], "quotes": [["\\\"", "\\\""]], "name": "ShaderLab", "extensions": ["shader", "cginc"]},
  "Sil": {"line_comment": ["//"], "multi_line_comments": [["/*", "*/"]], "quotes": [["\\\"", "\\\""]], "name": "SIL", "extensions": ["sil"]},
  "Slang": {"line_comment": ["//"], "multi_line_comments": [["/*", "*/"]], "quotes": [["\\\"", "\\\""]], "extensions": ["slang"]},
  "Slint": {"line_comment": ["//"], "multi_line_comments": [["/*", "*/"]], "quotes": [["\\\"", "\\\""]], "extensions": ["slint"]},
  "Smalltalk": {"multi_line_comments": [["\\\"", "\\\""]], "quotes": [["'", "'"]], "extensions": ["st"]},
  "Smithy": {"line_comment": ["//"], "quotes": [["\\\"", "\\\""]], "extensions": ["smithy"]},
  "Sml": {"multi_line_comments": [["(*", "*)"]], "quotes": [["\\\"", "\\\""]], "nested": true, "name": "Standard ML (SML)", "extensions": ["sml"]},
  "Snakemake": {"line_comment": ["#"], "quotes": [["\\\"", "\\\""], ["'", "'"]], "doc_quotes": [["\\\"\\\"\\\"", "\\\"\\\"\\\""], ["'''", "'''"]], "filenames": ["snakefile"], "extensions": ["smk", "rules"]},
  "Solidity": {"line_comment": ["//"], "multi_line_comments": [["/*", "*/"]], "quotes": [["\\\"", "\\\""]], "extensions": ["sol"]},
  "SpecmanE": {"line_comment": ["--", "//"], "multi_line_comments": [["'>", "<'"]], "name": "Specman e", "extensions": ["especman"]},
  "Sql": {"line_comment": ["--"], "multi_line_comments": [["/*", "*/"]], "quotes": [["'", "'"]], "name": "SQL", "extensions": ["sql"]},
  "Stan": {"line_comment": ["//", "#"], "multi_line_comments": [["/*", "*/"]], "quotes": [["\\\"", "\\\""]], "extensions": ["stan"]},
  "Starlark": {"line_comment": ["#"], "quotes": [["\\\"", "\\\""], ["'", "'"]], "doc_quotes": [["\\\"\\\"\\\"", "\\\"\\\"\\\""]], "extensions": ["star"]},
  "Stata": {"line_comment": ["//", "*"], "multi_line_comments": [["/*", "*/"]], "quotes": [["\\\"", "\\\""]], "extensions": ["do", "ado"]},
  "Stratego": {"line_comment": ["//"], "multi_line_comments": [["/*", "*/"]], "quotes": [["\\\"", "\\\""]], "nested": false, "extensions": ["str"]},
  "Stylus": {"line_comment": ["//"], "multi_line_comments": [["/*", "*/"]], "quotes": [["\\\"", "\\\""], ["'", "'"]], "extensions": ["styl"]},
  "Svelte": {"multi_line_comments": [["<!--", "-->"]], "quotes": [["\\\"", "\\\""], ["'", "'"]], "extensions": ["svelte"]},
  "Svg": {"multi_line_comments": [["<!--", "-->"]], "quotes": [["\\\"", "\\\""], ["'", "'"]], "name": "SVG", "extensions": ["svg"]},
  "Swift": {"line_comment": ["//"], "multi_line_comments": [["/*", "*/"]], "quotes": [["\\\"", "\\\""]], "nested": true, "extensions": ["swift"]},
  "Swig": {"line_comment": ["//"], "multi_line_comments": [["/*", "*/"]], "quotes": [["\\\"", "\\\""]], "name": "SWIG", "extensions": ["swg"]},
  "SystemVerilog": {"line_comment": ["//"], "multi_line_comments": [["/*", "*/"]], "quotes": [["\\\"", "\\\""]], "name": "SystemVerilog", "extensions": ["sv", "svh"]},
  "Tact": {"line_comment": ["//"], "multi_line_comments": [["/*", "*/"]], "quotes": [["\\\"", "\\\""]], "extensions": ["tact"]},
  "Tcl": {"line_comment": ["#"], "quotes": [["\\\"", "\\\""]], "name": "TCL", "extensions": ["tcl"]},
  "Templ": {"line_comment": ["//"], "multi_line_comments": [["<!--", "-->"], ["/*", "*/"]], "quotes": [["\\\"", "\\\""], ["'", "'"], ["`", "`"]], "extensions": ["templ"]},
  "Tera": {"multi_line_comments": [["<!--", "-->"], ["{#", "#}"]], "quotes": [["\\\"", "\\\""], ["'", "'"]], "extensions": ["tera"]},
  "Tex": {"line_comment": ["%"], "name": "TeX", "extensions": ["tex", "sty"]},
  "Thrift": {"line_comment": ["#", "//"], "multi_line_comments": [["/*", "*/"]], "quotes": [["\\\"", "\\\""], ["'", "'"]], "extensions": ["thrift"]},
  "Tla": {"line_comment": ["\\\\*"], "multi_line_comments": [["(*", "*)"]], "nested": true, "quotes": [["\\\"", "\\\""]], "name": "TLA+", "extensions": ["tla"]},
  "Toml": {"line_comment": ["#"], "quotes": [["\\\"", "\\\""], ["'", "'"]], "doc_quotes": [["\\\"\\\"\\\"", "\\\"\\\"\\\""], ["'''", "'''"]], "name": "TOML", "extensions": ["toml"]},
  "Tsx": {"line_comment": ["//"], "multi_line_comments": [["/*", "*/"]], "quotes": [["\\\"", "\\\""], ["'", "'"], ["`", "`"]], "name": "TSX", "extensions": ["tsx"]},
  "Ttcn": {"line_comment": ["//"], "multi_line_comments": [["/*", "*/"]], "quotes": [["\\\"", "\\\""]], "name": "TTCN-3", "extensions": ["ttcn", "ttcn3", "ttcnpp"]},
  "Twig": {"multi_line_comments": [["<!--", "-->"], ["{#", "#}"]], "quotes": [["\\\"", "\\\""], ["'", "'"]], "extensions": ["twig"]},
  "TypeScript": {"line_comment": ["//"], "multi_line_comments": [["/*", "*/"]], "quotes": [["\\\"", "\\\""], ["'", "'"], ["`", "`"]], "name": "TypeScript", "extensions": ["ts", "mts", "cts"]},
  "Typst": {"line_comment": ["//"], "multi_line_comments": [["/*", "*/"]], "quotes": [["\\\"", "\\\""]], "extensions": ["typ"]},
  "Umpl": {"line_comment": ["!"], "quotes": [["`", "`"]], "name": "UMPL", "extensions": ["umpl"]},
  "UnrealDeveloperMarkdown": {"literate": true, "name": "Unreal Markdown", "extensions": ["udn"]},
  "UnrealPlugin": {"name": "Unreal Plugin", "extensions": ["uplugin"]},
  "UnrealProject": {"name": "Unreal Project", "extensions": ["uproject"]},
  "UnrealScript": {"line_comment": ["//"], "multi_line_comments": [["/*", "*/"]], "quotes": [["\\\"", "\\\""]], "name": "Unreal Script", "extensions": ["uc", "uci", "upkg"]},
  "UnrealShader": {"line_comment": ["//"], "multi_line_comments": [["/*", "*/"]], "quotes": [["\\\"", "\\\""]], "name": "Unreal Shader", "extensions": ["usf"]},
  "UnrealShaderHeader": {"line_comment": ["//"], "multi_line_comments": [["/*", "*/"]], "quotes": [["\\\"", "\\\""]], "name": "Unreal Shader Header", "extensions": ["ush"]},
  "UrWeb": {"multi_line_comments": [["(*", "*)"]], "nested": true, "quotes": [["\\\"", "\\\""]], "name": "Ur/Web", "extensions": ["ur", "urs"]},
  "UrWebProject": {"line_comment": ["#"], "name": "Ur/Web Project", "extensions": ["urp"]},
  "Vala": {"line_comment": ["//"], "multi_line_comments": [["/*", "*/"]], "quotes": [["\\\"", "\\\""]], "doc_quotes": [["\\\"\\\"\\\"", "\\\"\\\"\\\""]], "extensions": ["vala"]},
  "Vb6": {"line_comment": ["'"], "quotes": [["\\\"", "\\\""]], "name": "VB6", "extensions": ["frm", "bas", "cls", "ctl"]},
  "VbScript": {"line_comment": ["'", "REM"], "quotes": [["\\\"", "\\\""]], "name": "VBScript", "extensions": ["vbs"]},
  "Velocity": {"line_comment": ["##"], "multi_line_comments": [["#*", "*#"]], "quotes": [["\\\"", "\\\""], ["'", "'"]], "name": "Apache Velocity", "extensions": ["vm"]},
  "Verilog": {"line_comment": ["//"], "multi_line_comments": [["/*", "*/"]], "quotes": [["\\\"", "\\\""]], "extensions": ["vg", "vh"]},
  "VerilogArgsFile": {"name": "Verilog Args File", "extensions": ["irunargs", "xrunargs"]},
  "Vhdl": {"line_comment": ["--"], "multi_line_comments": [["/*", "*/"]], "name": "VHDL", "extensions": ["vhd", "vhdl"]},
  "VimScript": {"line_comment": ["\\\""], "quotes": [["'", "'"]], "name": "Vim Script", "extensions": ["vim"]},
  "Virgil": {"line_comment": ["//"], "quotes": [["\\\"", "\\\""]], "extensions": ["v3"]},
  "VisualBasic": {"line_comment": ["'"], "quotes": [["\\\"", "\\\""]], "name": "Visual Basic", "extensions": ["vb"]},
  "VisualStudioProject": {"multi_line_comments": [["<!--", "-->"]], "quotes": [["\\\"", "\\\""], ["'", "'"]], "name": "Visual Studio Project", "extensions": ["vcproj", "vcxproj"]},
  "VisualStudioSolution": {"name": "Visual Studio Solution", "extensions": ["sln"]},
  "Vue": {"line_comment": ["//"], "multi_line_comments": [["<!--", "-->"], ["/*", "*/"]], "quotes": [["\\\"", "\\\""], ["'", "'"], ["`", "`"]], "extensions": ["vue"]},
  "Vyper": {"line_comment": ["#"], "quotes": [["\\\"", "\\\""], ["'", "'"]], "doc_quotes": [["\\\"\\\"\\\"", "\\\"\\\"\\\""]], "extensions": ["vy"]},
  "WebAssembly": {"line_comment": [";;"], "quotes": [["\\\"", "\\\""]], "name": "WebAssembly", "extensions": ["wat", "wast"]},
  "WenYan": {"multi_line_comments": [["批曰。", "。"], ["疏曰。", "。"]], "extensions": ["wy"]},
  "Wgsl": {"line_comment": ["//"], "multi_line_comments": [["/*", "*/"]], "quotes": [["\\\"", "\\\""]], "name": "WGSL", "extensions": ["wgsl"]},
  "Wolfram": {"multi_line_comments": [["(*", "*)"]], "nested": true, "quotes": [["\\\"", "\\\""]], "extensions": ["nb", "wl", "wls"]},
  "Xaml": {"multi_line_comments": [["<!--", "-->"]], "quotes": [["\\\"", "\\\""], ["'", "'"]], "name": "XAML", "extensions": ["xaml"]},
  "XcodeConfig": {"line_comment": ["//"], "quotes": [["\\\"", "\\\""], ["'", "'"]], "name": "Xcode Config", "extensions": ["xcconfig"]},
  "Xml": {"multi_line_comments": [["<!--", "-->"]], "quotes": [["\\\"", "\\\""], ["'", "'"]], "name": "XML", "extensions": ["xml"]},
  "Xsl": {"multi_line_comments": [["<!--", "-->"]], "quotes": [["\\\"", "\\\""], ["'", "'"]], "name": "XSL", "extensions": ["xsl", "xslt"]},
  "Xtend": {"line_comment": ["//"], "multi_line_comments": [["/*", "*/"]], "quotes": [["\\\"", "\\\""], ["'", "'"]], "doc_quotes": [["'''", "'''"]], "extensions": ["xtend"]},
  "Yaml": {"line_comment": ["#"], "quotes": [["\\\"", "\\\""], ["'", "'"]], "name": "YAML", "extensions": ["yaml", "yml"]},
  "ZenCode": {"line_comment": ["//", "#"], "multi_line_comments": [["/*", "*/"]], "quotes": [["\\\"", "\\\""], ["'", "'"]], "extensions": ["zs"]},
  "Zig": {"line_comment": ["//"], "quotes": [["\\\"", "\\\""]], "extensions": ["zig"]},
  "Zokrates": {"line_comment": ["//"], "multi_line_comments": [["/*", "*/"]], "quotes": [["\\\"", "\\\""]], "name": "ZoKrates", "extensions": ["zok"]},
  "Zsh": {"line_comment": ["#"], "quotes": [["\\\"", "\\\""], ["'", "'"]], "name": "Zsh", "extensions": ["zsh"]}
 }
}"####;

/// What is laid over the syntax: above all, how test code is recognised.
pub const EXTRAS: &'static str = r####"{
 "global": {
  "test_paths": ["**/tests/**", "**/test/**", "**/__tests__/**", "**/testdata/**", "**/spec/**"]
 },
 "languages": {
  "Blade": {"path_suffixes": [".blade.php"]},
  "C": {"test_paths": ["**/*_test.c", "**/test_*.c"]},
  "CSharp": {"test_paths": ["**/*Test.cs", "**/*Tests.cs"], "test_blocks": ["[Test]", "[Fact]", "[Theory]", "[TestMethod]"]},
  "Cpp": {"test_paths": ["**/*_test.cc", "**/*_test.cpp", "**/*_unittest.cc", "**/test_*.cpp"], "test_blocks": ["TEST(", "TEST_F(", "TEST_P(", "TEST_CASE("]},
  "D": {"test_blocks": ["unittest"]},
  "Dart": {"test_paths": ["**/*_test.dart"], "test_blocks": ["test(", "group(", "testWidgets("]},
  "Elixir": {"test_paths": ["**/*_test.exs"]},
  "Go": {"test_paths": ["**/*_test.go"], "test_blocks": ["func Test", "func Benchmark", "func Example", "func Fuzz"]},
  "Haskell": {"test_paths": ["**/*Spec.hs"]},
  "Java": {"test_paths": ["**/*Test.java", "**/*Tests.java", "**/*IT.java"], "test_blocks": ["@Test", "@ParameterizedTest"]},
  "JavaScript": {"test_paths": ["**/*.test.js", "**/*.spec.js", "**/*.test.mjs", "**/*.spec.mjs", "**/*.test.cjs", "**/*.spec.cjs"], "test_blocks": ["describe(", "it(", "test("]},
  "Jsx": {"test_paths": ["**/*.test.jsx", "**/*.spec.jsx"], "test_blocks": ["describe(", "it(", "test("]},
  "Kotlin": {"test_paths": ["**/*Test.kt", "**/*Tests.kt"], "test_blocks": ["@Test", "@ParameterizedTest"]},
  "Lua": {"test_paths": ["**/*_spec.lua"]},
  "Perl": {"extensions": ["pl", "pm", "t"], "test_paths": ["**/*.t"]},
  "Php": {"test_paths": ["**/*Test.php"]},
  "Python": {"test_paths": ["**/test_*.py", "**/*_test.py", "**/conftest.py"], "test_blocks": ["def test_", "async def test_", "class Test"], "test_block_style": "indent"},
  "Ruby": {"test_paths": ["**/*_spec.rb", "**/*_test.rb"]},
  "Rust": {"test_paths": ["**/tests.rs", "**/*_test.rs", "**/*_tests.rs", "**/benches/**"], "test_blocks": ["#[cfg(test)]", "#[test]", "#[tokio::test", "#[rstest]"]},
  "Scala": {"test_paths": ["**/*Spec.scala", "**/*Test.scala", "**/*Suite.scala"]},
  "Swift": {"test_paths": ["**/*Tests.swift", "**/*Test.swift"]},
  "Tsx": {"test_paths": ["**/*.test.tsx", "**/*.spec.tsx"], "test_blocks": ["describe(", "it(", "test("]},
  "TypeScript": {"test_paths": ["**/*.test.ts", "**/*.spec.ts", "**/*.test.mts", "**/*.spec.mts"], "test_blocks": ["describe(", "it(", "test("]},
  "Zig": {"test_blocks": ["test "]}
 }
}"####;

/// Which languages are reported together.
pub const FAMILIES: &'static str = r####"{
 "families": {
  ".NET": {"languages": ["CSharp", "FSharp", "VisualBasic"]},
  "Apple": {"languages": ["Swift", "ObjectiveC", "ObjectiveCpp", "AppleScript"]},
  "Build": {"languages": ["Makefile", "CMake", "Dockerfile", "Meson", "Bazel", "Starlark", "Just", "Autoconf", "Gradle", "Cabal", "Rakefile", "Automake", "Scons", "MsBuild", "Bitbake"]},
  "Clojure": {"languages": ["Clojure", "ClojureC", "ClojureScript"]},
  "Configuration": {"languages": ["Json", "Yaml", "Toml", "Ini", "Xml", "Hcl", "Nix", "Dhall", "Xaml", "Xsl", "Json5", "Jsonnet", "Kdl", "Ron", "Cue"]},
  "Documentation": {"languages": ["Markdown", "ReStructuredText", "AsciiDoc", "Org", "PlainText", "Tex", "Mdx", "Typst"]},
  "Fortran": {"languages": ["FortranLegacy", "FortranModern"]},
  "Functional": {"languages": ["Haskell", "OCaml", "Elm", "PureScript", "Idris", "Agda", "Coq", "Lean", "Sml", "Erlang", "Elixir", "Gleam", "ReScript", "Roc", "Koka", "Fstar"]},
  "Hardware": {"languages": ["Verilog", "SystemVerilog", "Vhdl"]},
  "Interfaces": {"languages": ["Protobuf", "Thrift", "Graphql", "FlatBuffers", "Smithy"]},
  "JVM": {"languages": ["Java", "Kotlin", "Scala", "Groovy", "Ceylon", "Xtend"]},
  "JavaScript": {"languages": ["JavaScript", "TypeScript", "Jsx", "Tsx", "CoffeeScript", "Vue", "Svelte", "GlimmerJs", "GlimmerTs", "LiveScript"]},
  "Lisp": {"languages": ["Lisp", "Scheme", "Racket", "Elisp", "Hy", "Fennel", "Janet"]},
  "Python": {"languages": ["Python", "Cython"]},
  "Shaders": {"languages": ["Glsl", "Hlsl", "Wgsl", "Metal", "ShaderLab", "GdShader", "Slang"]},
  "Shell": {"languages": ["Bash", "Sh", "Zsh", "Fish", "CShell", "PowerShell", "Batch", "Awk", "Nushell", "Elvish"]},
  "Systems": {"languages": ["Rust", "C", "CHeader", "Cpp", "CppHeader", "CppModule", "D", "Zig", "Nim", "Ada", "Assembly", "Cuda", "Arduino", "LinkerScript", "WebAssembly", "Vala", "AssemblyGas", "Odin", "Hare", "OpenCl", "Jai", "HolyC"]},
  "Web": {"languages": ["Html", "Css", "Sass", "Less", "Gohtml", "Handlebars", "Twig", "RubyHtml", "Blade", "Svg", "Stylus", "PostCss", "Haml", "Pug", "Liquid", "Mustache", "Jinja2", "Tera", "Templ", "Astro", "AspNet", "Razor"]}
 }
}"####;

/// The definitions of languages that the library comes with.
pub open spec fn language_text() -> Seq<char> {
    A_TO_F@ + G_TO_N@ + O_TO_Z@
}

/// The definitions of languages that the library comes with, as one JSON text.
pub fn languages() -> (r: String)
    ensures
        r@ == language_text(),
{
    let mut out = A_TO_F.to_owned();
    out.append(G_TO_N);
    out.append(O_TO_Z);
    out
}

/// The registry of the definitions that come with the library.
pub fn registry() -> (r: Result<Registry, RegistryError>)
    ensures
        ({
            let all = (
                json::parsed(language_text()),
                json::parsed(EXTRAS@),
                json::parsed(FAMILIES@),
            );
            match all {
                (Ok(b), Ok(e), Ok(f)) => {
                    &&& r is Ok <==> lang::registry_ok(b, e, f)
                    &&& r matches Ok(registry) ==> registry.wf() && registry.built_from(b, e, f)
                    &&& r matches Err(error) ==> lang::is_registry_error(error, b, e, f)
                },
                _ => r matches Err(RegistryError::Json(why)) && why@ == lang::first_complaint(
                    language_text(),
                    EXTRAS@,
                    FAMILIES@,
                ),
            }
        }),
{
    Registry::from_json(languages().as_str(), EXTRAS, FAMILIES)
}

} // verus!
