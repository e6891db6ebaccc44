use oc_rsync::filters::braces::expand_braces;
use oc_rsync::filters::glob::compile_glob;
use oc_rsync::filters::lists::{
    files_from_rules, parse_file_data, parse_from_bytes, parse_rule_list_from_bytes,
    rooted_and_parents,
};
use oc_rsync::filters::matcher::{DirLayer, Matcher};
use oc_rsync::filters::mergefile::{
    adjust_merge_text, is_excluded, order_per_dirs, record_merge, same_per_dir, with_merge_flags,
};
use oc_rsync::filters::merges::{
    cvs_defaults, cvs_rule_text, dot_exclude_self, dot_merge_input, inherit_mods, mark_perishable,
    split_words, MergeInput,
};
use oc_rsync::filters::scan::{parse_text, LineScan, ParseItem, Request, MAX_PARSE_DEPTH};
use oc_rsync::filters::token::{split_mods, MergeModifier, RuleKind};
use oc_rsync::filters::util::{decode_line, parse_list, trim_newlines};
use oc_rsync::filters::{FilterStats, MatchResult, ParseError, PerDir, Rule, RuleFlags};

fn scan(text: &str) -> LineScan {
    parse_text(text, false, 0, &None)
}

/// Each rule of a scan as (kind, pattern, dir_only, invert).
fn summary(s: &LineScan) -> Vec<(String, String, bool, bool)> {
    s.items
        .iter()
        .map(|i| match i {
            ParseItem::Rule(r) => rule_summary(r),
            ParseItem::Request(q, _) => (format!("request {:?}", q), String::new(), false, false),
        })
        .collect()
}

fn rule_summary(r: &Rule) -> (String, String, bool, bool) {
    let (k, d) = match r {
        Rule::Include(d) => ("+", d),
        Rule::Exclude(d) => ("-", d),
        Rule::Protect(d) => ("P", d),
        Rule::ImpliedDir(d) => ("implied", d),
        Rule::DirMerge(p) => return (format!("merge {}", p.file), String::new(), false, false),
        other => return (format!("{:?}", other), String::new(), false, false),
    };
    (k.to_string(), d.pattern_str().to_string(), d.dir_only(), d.invert())
}

fn s(k: &str, p: &str, dir_only: bool) -> (String, String, bool, bool) {
    (k.to_string(), p.to_string(), dir_only, false)
}

fn rules_of(sc: LineScan) -> Vec<Rule> {
    assert!(sc.error.is_none(), "{:?}", sc.error);
    sc.items
        .into_iter()
        .map(|i| match i {
            ParseItem::Rule(r) => r,
            ParseItem::Request(q, _) => panic!("unexpected request {:?}", q),
        })
        .collect()
}

fn check(m: &Matcher, path: &str, stats: &mut FilterStats) -> MatchResult {
    m.check(path, false, false, true, false, &Vec::new(), stats)
}

#[test]
fn braces_expand_alternatives_and_ranges() {
    assert_eq!(expand_braces("a{b,c}d").unwrap(), vec!["abd", "acd"]);
    assert_eq!(expand_braces("{1..3}").unwrap(), vec!["1", "2", "3"]);
    // a descending range needs a negative step; without one it is no range
    assert_eq!(expand_braces("{3..1}").unwrap(), vec!["3..1"]);
    assert_eq!(expand_braces("{3..1..-1}").unwrap(), vec!["3", "2", "1"]);
    assert_eq!(expand_braces("{-1..1}").unwrap(), vec!["-1", "00", "01"]);
    assert_eq!(expand_braces("{01..03}").unwrap(), vec!["01", "02", "03"]);
    // numbers are padded to the wider bound
    assert_eq!(expand_braces("{1..10..3}").unwrap(), vec!["01", "04", "07", "10"]);
    assert_eq!(expand_braces("{a..c}").unwrap(), vec!["a", "b", "c"]);
    // an alternative is not expanded again
    assert_eq!(expand_braces("{a,{b,c}}x").unwrap(), vec!["ax", "{b,c}x"]);
    assert_eq!(expand_braces("{x,y}{1,2}").unwrap(), vec!["x1", "x2", "y1", "y2"]);
}

#[test]
fn braces_without_group_stand_for_themselves() {
    assert_eq!(expand_braces("plain").unwrap(), vec!["plain"]);
    assert_eq!(expand_braces("{a,b").unwrap(), vec!["{a,b"]);
    assert_eq!(expand_braces("").unwrap(), vec![""]);
}

#[test]
fn braces_too_many_expansions() {
    assert!(matches!(expand_braces("{1..10001}"), Err(ParseError::TooManyExpansions)));
    assert!(matches!(
        expand_braces("{1..100}{1..100}{1..2}"),
        Err(ParseError::TooManyExpansions)
    ));
    assert_eq!(expand_braces("{1..10000}").unwrap().len(), 10000);
}

#[test]
fn decode_line_trims_and_skips_comments() {
    assert_eq!(decode_line("  foo  ").as_deref(), Some("foo"));
    assert_eq!(decode_line("# comment"), None);
    assert_eq!(decode_line("   "), None);
    assert_eq!(decode_line("a\\ "), Some("a ".to_string()));
    assert_eq!(decode_line("\\#x"), Some("#x".to_string()));
}

#[test]
fn trim_newlines_drops_line_ends() {
    assert_eq!(trim_newlines(b"abc\r\n\n"), b"abc");
    assert_eq!(trim_newlines(b"a\nb"), b"a\nb");
    assert_eq!(trim_newlines(b""), b"");
}

#[test]
fn parse_list_nul_and_lines() {
    assert_eq!(parse_list(b"a\0b\n\0\0", true), vec!["a", "b"]);
    assert_eq!(parse_list(b"a\n# c\n\nb\n", false), vec!["a", "b"]);
    // invalid UTF-8 is replaced
    assert_eq!(parse_list(b"\xff\n", false), vec!["\u{fffd}"]);
}

#[test]
fn split_mods_cases() {
    assert_eq!(split_mods("s foo", "/!Csrpx"), ("s", "foo"));
    assert_eq!(split_mods(" foo", "/!Csrpx"), ("", "foo"));
    assert_eq!(split_mods(",/x y", "/!Csrpx"), (",/x", "y"));
    assert_eq!(split_mods("", "/!Csrpx"), ("", ""));
    assert_eq!(split_mods("rotect x", "/!Csrpx"), ("r", "otect x"));
}

#[test]
fn merge_modifiers_apply() {
    let mut pd = PerDir {
        file: "f".to_string(),
        anchored: false,
        root_only: false,
        inherit: true,
        cvs: false,
        word_split: false,
        sign: None,
        flags: RuleFlags::none(),
    };
    MergeModifier::IncludeOnly.apply(&mut pd);
    assert_eq!(pd.sign, Some('+'));
    MergeModifier::ExcludeOnly.apply(&mut pd);
    assert_eq!(pd.sign, Some('-'));
    MergeModifier::NoInherit.apply(&mut pd);
    MergeModifier::WordSplit.apply(&mut pd);
    MergeModifier::CvsMode.apply(&mut pd);
    assert!(!pd.inherit && pd.word_split && pd.cvs);
}

#[test]
fn rule_flags_from_mods_and_applies() {
    let f = RuleFlags::from_mods("sp!");
    assert!(f.sender && f.perishable && !f.receiver && !f.xattr);
    assert!(!f.applies(true, false));
    assert!(f.applies(false, false));
    assert!(!f.applies(false, true));
    let g = RuleFlags::from_mods("r").union(&f);
    assert!(g.sender && g.receiver && g.perishable);
    assert!(g.applies(true, false) && g.applies(false, false));
}

#[test]
fn compile_glob_refuses_bad_class() {
    assert!(matches!(compile_glob("["), Err(ParseError::Glob(_))));
    assert!(compile_glob("*.txt").is_ok());
}

#[test]
fn exclude_line_matches_at_any_depth() {
    let sc = scan("- *.o\n");
    assert_eq!(summary(&sc), vec![s("-", "*.o", false), s("-", "**/*.o", false)]);
}

#[test]
fn include_directory_line_widens_below() {
    let sc = scan("+ foo/\n");
    assert_eq!(summary(&sc), vec![s("+", "/foo", false), s("+", "/foo/**", false)]);
    let sc = scan("+ a/b/c\n");
    assert_eq!(
        summary(&sc),
        vec![s("+", "a", true), s("+", "a/b", true), s("+", "/a/b/c", false)]
    );
    let sc = scan("- dir/***\n");
    assert_eq!(summary(&sc), vec![s("-", "/dir", false), s("-", "/dir/**", false)]);
}

#[test]
fn anchored_and_dot_slash_patterns() {
    assert_eq!(summary(&scan("- ./x\n")), vec![s("-", "/x", false)]);
    assert_eq!(summary(&scan("-/ x\n")), vec![s("-", "/x", false)]);
    assert_eq!(summary(&scan("- **\n")), vec![s("-", "**", false)]);
    assert_eq!(summary(&scan("-! x\n")), vec![
        ("-".to_string(), "x".to_string(), false, true),
        ("-".to_string(), "**/x".to_string(), false, true),
    ]);
}

#[test]
fn brace_patterns_become_several_rules() {
    let sc = scan("- /{a,b}\n");
    assert_eq!(summary(&sc), vec![s("-", "/a", false), s("-", "/b", false)]);
}

#[test]
fn keyword_and_letter_rules() {
    let sc = scan("include x\nexclude y\nP z\nS w\n");
    let got = summary(&sc);
    assert_eq!(got[0], s("+", "x", false));
    assert_eq!(got[2], s("-", "y", false));
    assert_eq!(got[4], s("P", "z", false));
    assert_eq!(got[6], s("+", "w", false));
    match &sc.items[4] {
        ParseItem::Rule(Rule::Protect(d)) => assert!(d.flags().receiver),
        other => panic!("{:?}", other),
    }
    match &sc.items[6] {
        ParseItem::Rule(Rule::Include(d)) => assert!(d.flags().sender),
        other => panic!("{:?}", other),
    }
}

#[test]
fn option_and_clear_lines() {
    let got: Vec<String> = summary(&scan("!\nc\nexisting\nno-existing\nprune-empty-dirs\nno-prune-empty-dirs\n"))
        .into_iter()
        .map(|x| x.0)
        .collect();
    assert_eq!(
        got,
        vec!["Clear", "Clear", "Existing", "NoExisting", "PruneEmptyDirs", "NoPruneEmptyDirs"]
    );
}

#[test]
fn merge_rules() {
    let sc = scan(": .rules\n");
    match &sc.items[0] {
        ParseItem::Rule(Rule::DirMerge(pd)) => {
            assert_eq!(pd.file, ".rules");
            assert!(!pd.anchored && pd.inherit && pd.sign.is_none());
        },
        other => panic!("{:?}", other),
    }
    let sc = scan(":n- /top\n");
    match &sc.items[0] {
        ParseItem::Rule(Rule::DirMerge(pd)) => {
            assert_eq!(pd.file, "top");
            assert!(pd.anchored && pd.root_only && !pd.inherit);
            assert_eq!(pd.sign, Some('-'));
        },
        other => panic!("{:?}", other),
    }
    let sc = scan(":e .x\n");
    assert_eq!(summary(&sc)[1], s("-", "**/.x", false));
    let sc = scan(":C\n");
    match &sc.items[0] {
        ParseItem::Rule(Rule::DirMerge(pd)) => assert!(pd.cvs && pd.file == ".cvsignore"),
        other => panic!("{:?}", other),
    }
    // a line starting with `d` is read as a `:` rule
    let sc = scan("dir-merge .x\n");
    match &sc.items[0] {
        ParseItem::Rule(Rule::DirMerge(pd)) => assert_eq!(pd.file, "ir-merge .x"),
        other => panic!("{:?}", other),
    }
}

#[test]
fn dash_f_rules() {
    let sc = scan("-F\n");
    assert_eq!(sc.items.len(), 1);
    let sc = scan("-FF\n");
    assert_eq!(summary(&sc)[1], s("-", "**/.rsync-filter", false));
}

#[test]
fn file_lines_become_requests() {
    let sc = scan(". rules.txt\n:include-merge  more \nmerge m\ninclude-from i\nexclude-from e\nfiles-from f\n-C\n");
    assert!(sc.error.is_none());
    let qs: Vec<String> = sc
        .items
        .iter()
        .map(|i| match i {
            ParseItem::Request(q, _) => match q {
                Request::DotMerge { mods, file, .. } => format!("dot {} {}", mods, file),
                Request::IncludeMerge { file, .. } => format!("include-merge {}", file),
                Request::Merge { file, .. } => format!("merge {}", file),
                Request::RuleList { file, sign } => format!("list {} {}", sign, file),
                Request::FilesFrom { file } => format!("files-from {}", file),
                Request::CvsDefaults => "cvs".to_string(),
            },
            ParseItem::Rule(r) => format!("{:?}", r),
        })
        .collect();
    assert_eq!(
        qs,
        vec![
            "dot  rules.txt",
            "include-merge more",
            "merge m",
            "list + i",
            "list - e",
            "files-from f",
            "cvs"
        ]
    );
}

#[test]
fn invalid_line_stops_after_earlier_items() {
    let sc = scan("- a\nfoo\n- b\n");
    assert_eq!(sc.items.len(), 2);
    match sc.error {
        Some(ParseError::InvalidRule(l)) => assert_eq!(l, "foo"),
        other => panic!("{:?}", other),
    }
    assert!(matches!(scan("+\n").error, Some(ParseError::InvalidRule(_))));
    assert!(matches!(scan(".\n").error, Some(ParseError::InvalidRule(_))));
    assert!(matches!(scan(":\n").error, Some(ParseError::InvalidRule(_))));
    assert!(matches!(scan("- [\n").error, Some(ParseError::Glob(_))));
    assert!(matches!(scan("- {1..20000}\n").error, Some(ParseError::TooManyExpansions)));
}

#[test]
fn parsing_too_deep_is_refused() {
    let sc = parse_text("- a\n", false, MAX_PARSE_DEPTH, &None);
    assert!(matches!(sc.error, Some(ParseError::RecursionLimit)));
    let sc = parse_text("d x\n", false, MAX_PARSE_DEPTH - 1, &None);
    assert!(matches!(sc.error, Some(ParseError::RecursionLimit)));
}

#[test]
fn source_is_recorded() {
    let sc = parse_text("- a\n", false, 0, &Some("rules".to_string()));
    match &sc.items[0] {
        ParseItem::Rule(Rule::Exclude(d)) => assert_eq!(d.source_str(), Some("rules")),
        other => panic!("{:?}", other),
    }
}

#[test]
fn bytes_nul_separated() {
    let sc = parse_from_bytes(b"- a\0+ b\n\0", true, 0, &None);
    assert_eq!(
        summary(&sc),
        vec![s("-", "a", false), s("-", "**/a", false), s("+", "b", false), s("+", "**/b", false)]
    );
    let sc = parse_from_bytes(b"- a\n", false, 0, &None);
    assert_eq!(summary(&sc).len(), 2);
}

#[test]
fn rule_file_from_stdin_is_nul_separated() {
    let sc = parse_file_data(b"- a\0", "-", false, 0);
    assert_eq!(summary(&sc).len(), 2);
    match &sc.items[0] {
        ParseItem::Rule(Rule::Exclude(d)) => assert_eq!(d.source_str(), None),
        other => panic!("{:?}", other),
    }
    let sc = parse_file_data(b"- a\n", "f", false, 0);
    match &sc.items[0] {
        ParseItem::Rule(Rule::Exclude(d)) => assert_eq!(d.source_str(), Some("f")),
        other => panic!("{:?}", other),
    }
}

#[test]
fn rooted_and_parents_cases() {
    assert_eq!(
        rooted_and_parents("/a/b/c"),
        ("a/b/c".to_string(), vec!["a/".to_string(), "a/b/".to_string()])
    );
    assert_eq!(
        rooted_and_parents("a/*/c"),
        ("a/*/c".to_string(), vec!["a/".to_string(), "a/*/".to_string()])
    );
    assert_eq!(rooted_and_parents("a"), ("a".to_string(), Vec::<String>::new()));
    assert_eq!(rooted_and_parents("a/**/b"), ("a/**/b".to_string(), vec!["a/".to_string()]));
}

#[test]
fn include_list_keeps_parents_walkable() {
    let sc = parse_rule_list_from_bytes(b"a/b\n", false, '+', 0, &None);
    assert_eq!(
        summary(&sc),
        vec![
            s("+", "a", true),
            s("+", "/a/b", false),
            s("implied", "/a", false),
            s("-", "/a/*", false)
        ]
    );
    let sc = parse_rule_list_from_bytes(b"x\n", false, '-', 0, &None);
    assert_eq!(summary(&sc), vec![s("-", "x", false), s("-", "**/x", false)]);
    // a last part of stars excludes nothing else; its parents stay walkable
    let sc = parse_rule_list_from_bytes(b"a/*\n", false, '+', 0, &None);
    assert_eq!(
        summary(&sc),
        vec![s("+", "/a/*", false), s("implied", "/a", false), s("implied", "/a/*", false)]
    );
}

#[test]
fn files_from_list() {
    let pats = vec!["a/b".to_string(), "d/".to_string()];
    let sc = files_from_rules(&pats, &vec![false, false], "list", false, 0);
    assert!(sc.error.is_none());
    assert_eq!(
        summary(&sc),
        vec![
            s("implied", "/a", true),
            s("+", "a", true),
            s("+", "/a/b", false),
            s("+", "/d/**", false),
            s("+", "/d", true),
            s("-", "/a/*", false),
            s("-", "/d/*", false),
            s("-", "/**", false)
        ]
    );
    // a path that the disk says is a directory is included with all below it
    let sc = files_from_rules(&vec!["e".to_string()], &vec![true], "list", false, 0);
    assert_eq!(summary(&sc)[0], s("+", "/e/**", false));
}

#[test]
fn dot_merge_contents() {
    match dot_merge_input(b"a b #c", "C", false) {
        MergeInput::Text(t) => assert_eq!(t, "- a\n- b\n"),
        _ => panic!(),
    }
    match dot_merge_input(b"x\n\n#c\n y \n", "+", false) {
        MergeInput::Text(t) => assert_eq!(t, "+ x\n+ y\n"),
        _ => panic!(),
    }
    match dot_merge_input(b"p q\n", "w", false) {
        MergeInput::Text(t) => assert_eq!(t, "p\nq\n"),
        _ => panic!(),
    }
    match dot_merge_input(b"a\0b\n\0#c", "-", true) {
        MergeInput::Bytes(b, f0) => {
            assert_eq!(b, b"- a\n- b\n".to_vec());
            assert!(!f0);
        },
        _ => panic!(),
    }
    match dot_merge_input(b"z", "", true) {
        MergeInput::Bytes(b, f0) => {
            assert_eq!(b, b"z".to_vec());
            assert!(f0);
        },
        _ => panic!(),
    }
}

#[test]
fn dot_merge_flags_and_self_exclusion() {
    let rules = rules_of(scan("- a\n"));
    let out = inherit_mods(rules, "s");
    for r in &out {
        match r {
            Rule::Exclude(d) => assert!(d.flags().sender),
            other => panic!("{:?}", other),
        }
    }
    let ex = dot_exclude_self("e", "f.rules", &None).unwrap();
    assert_eq!(rule_summary(&ex[0]), s("-", "**/f.rules", false));
    assert!(dot_exclude_self("", "f.rules", &None).unwrap().is_empty());
}

#[test]
fn cvs_rule_text_cases() {
    let toks = vec!["*.o".to_string(), "+foo".to_string(), "-".to_string(), "!".to_string()];
    assert_eq!(cvs_rule_text(&toks), "-p *.o\n+p foo\n-p\n!p\n");
    let defaults = cvs_defaults();
    assert_eq!(defaults.len(), 36);
    assert_eq!(defaults[0], "RCS");
    assert_eq!(defaults[35], ".bzr/");
    assert_eq!(split_words(" a\tb \n", false), vec!["a", "b"]);
    assert_eq!(split_words("a\u{a0}b", false), vec!["a", "b"]);
    assert_eq!(split_words("a\u{a0}b", true), vec!["a\u{a0}b"]);
}

#[test]
fn cvs_rules_are_perishable() {
    let text = cvs_rule_text(&vec!["core".to_string()]);
    let rules = mark_perishable(rules_of(scan(&text)));
    assert_eq!(rules.len(), 2);
    for r in &rules {
        match r {
            Rule::Exclude(d) => assert!(d.flags().perishable),
            other => panic!("{:?}", other),
        }
    }
}

#[test]
fn merge_file_text_adjustments() {
    assert_eq!(adjust_merge_text("a #x /b", true, false, None, None, false).unwrap(), "- /a\n- /b\n");
    assert_eq!(
        adjust_merge_text("a", true, false, None, Some("d"), false).unwrap(),
        "- /d/a\n"
    );
    match adjust_merge_text("a !b", true, false, None, None, false) {
        Err(ParseError::InvalidRule(t)) => assert_eq!(t, "!b"),
        other => panic!("{:?}", other),
    }
    assert_eq!(
        adjust_merge_text("foo\n+ bar\n!\n", false, false, Some('-'), None, false).unwrap(),
        "- foo\n+ bar\n!\n"
    );
    assert_eq!(
        adjust_merge_text("+ /x\nfoo\n", false, false, None, Some("sub"), false).unwrap(),
        "+ /sub/x\nfoo\n"
    );
    assert_eq!(
        adjust_merge_text("a y", false, true, Some('+'), Some("s"), false).unwrap(),
        "+ s/a\n+ s/y\n"
    );
    // a modifier letter at the start of an unsigned line is read as a modifier
    assert_eq!(
        adjust_merge_text("x\n", false, false, Some('+'), None, false).unwrap(),
        "+x \n"
    );
    assert_eq!(adjust_merge_text("as is", false, false, None, None, false).unwrap(), "as is");
}

#[test]
fn nested_merge_file_exclusion() {
    let rules: Vec<(usize, Rule)> = rules_of(scan("- /sub\n")).into_iter().enumerate().collect();
    assert!(is_excluded(&rules, "sub", true));
    assert!(!is_excluded(&rules, "other", true));
    let rules: Vec<(usize, Rule)> =
        rules_of(scan("+ /sub\n- /sub\n")).into_iter().enumerate().collect();
    assert!(!is_excluded(&rules, "sub", true));
}

fn pd(file: &str, inherit: bool) -> PerDir {
    PerDir {
        file: file.to_string(),
        anchored: false,
        root_only: false,
        inherit,
        cvs: false,
        word_split: false,
        sign: None,
        flags: RuleFlags::none(),
    }
}

#[test]
fn per_dir_bookkeeping() {
    let ordered = order_per_dirs(vec![(3, pd("a", true)), (1, pd("b", true))], vec![(2, pd("c", true)), (1, pd("d", true))]);
    let names: Vec<(usize, String)> = ordered.iter().map(|(i, p)| (*i, p.file.clone())).collect();
    assert_eq!(
        names,
        vec![(1, "b".to_string()), (1, "d".to_string()), (2, "c".to_string()), (3, "a".to_string())]
    );
    let mut entry = vec![(1, pd("a", true)), (2, pd("b", true))];
    record_merge(&mut entry, 5, pd("a", true));
    let names: Vec<(usize, String)> = entry.iter().map(|(i, p)| (*i, p.file.clone())).collect();
    assert_eq!(names, vec![(2, "b".to_string()), (5, "a".to_string())]);
    record_merge(&mut entry, 6, pd("z", false));
    assert_eq!(entry.len(), 2);
    assert!(same_per_dir(&pd("q", true), &pd("q", true)));
    assert!(!same_per_dir(&pd("q", true), &pd("q", false)));
    let loaded = with_merge_flags(vec![(0, Rule::DirMerge(pd("m", true)))], RuleFlags::from_mods("x"));
    match &loaded[0].1 {
        Rule::DirMerge(p) => assert!(p.flags.xattr),
        other => panic!("{:?}", other),
    }
}

#[test]
fn first_matching_rule_decides_law() {
    let m = Matcher::new(rules_of(scan("+ foo\n- *\n")));
    let mut st = FilterStats::new();
    assert_eq!(check(&m, "foo", &mut st), MatchResult { included: true, descend: false });
    assert_eq!(check(&m, "bar", &mut st), MatchResult { included: false, descend: false });
    let m = Matcher::new(rules_of(scan("- *\n+ foo\n")));
    assert!(!check(&m, "foo", &mut st).included);
}

#[test]
fn unmatched_path_is_included_and_walked() {
    let m = Matcher::new(rules_of(scan("- *.o\n")));
    let mut st = FilterStats::new();
    assert_eq!(check(&m, "x.o", &mut st), MatchResult { included: false, descend: false });
    assert_eq!(st.matches, 1);
    assert_eq!(check(&m, "foo.txt", &mut st), MatchResult { included: true, descend: true });
    assert_eq!(st.misses, 2);
    // a slash-free wildcard pattern only matches one-component paths
    assert!(check(&m, "dir/x.o", &mut st).included);
    assert_eq!(check(&m, "", &mut st), MatchResult { included: true, descend: false });
}

#[test]
fn inverted_rule_law() {
    let m = Matcher::new(rules_of(scan("-! *.txt\n")));
    let mut st = FilterStats::new();
    assert!(check(&m, "a.txt", &mut st).included);
    assert!(!check(&m, "a.c", &mut st).included);
}

#[test]
fn clear_drops_earlier_rules_law() {
    let m = Matcher::new(rules_of(scan("- *.o\n!\n+ *.c\n")));
    let mut st = FilterStats::new();
    assert!(check(&m, "x.o", &mut st).included);
}

#[test]
fn matcher_options_and_merge() {
    let m = Matcher::new(rules_of(scan("existing\n: .r\n- a\n")));
    assert_eq!(m.per_dir().len(), 1);
    assert_eq!(m.per_dir()[0].0, 1);
    assert_eq!(m.max_index(), 3);
    let mut m = m.with_root("/tmp/x".to_string()).with_prune_empty_dirs().with_from0();
    assert_eq!(m.root(), Some("/tmp/x"));
    assert!(m.prune_empty_dirs() && m.from0());
    let mut st = FilterStats::new();
    // with `existing` and a root, a path that does not exist is excluded
    assert_eq!(
        m.check("a2", false, false, false, false, &Vec::new(), &mut st),
        MatchResult { included: false, descend: false }
    );
    m.merge(rules_of(scan("- b\n")));
    assert_eq!(m.max_index(), 5);
}

#[test]
fn per_directory_layers_are_consulted() {
    let m = Matcher::new(Vec::new()).with_root("/r".to_string());
    let layer = DirLayer { rules: vec![(0, rules_of(scan("- /x\n")).remove(0))], merge_files: Vec::new() };
    let mut st = FilterStats::new();
    let r = m.check("x", false, false, true, false, &vec![layer], &mut st);
    assert!(!r.included);
    // without a root the layers are not consulted
    let m = Matcher::new(Vec::new());
    let layer = DirLayer { rules: vec![(0, rules_of(scan("- /x\n")).remove(0))], merge_files: Vec::new() };
    assert!(m.check("x", false, false, true, false, &vec![layer], &mut st).included);
}

#[test]
fn deletion_checks_skip_perishable_and_sender_rules() {
    let m = Matcher::new(rules_of(scan("-p a\n-s b\n")));
    let mut st = FilterStats::new();
    assert!(m.check("a", true, false, true, false, &Vec::new(), &mut st).included);
    assert!(!m.check("a", false, false, true, false, &Vec::new(), &mut st).included);
    assert!(m.check("b", true, false, true, false, &Vec::new(), &mut st).included);
    assert!(!m.check("b", false, false, true, false, &Vec::new(), &mut st).included);
    // attribute rules only take part in attribute checks
    let m = Matcher::new(rules_of(scan("-x user.*\n")));
    assert!(m.check("user.a", false, false, true, false, &Vec::new(), &mut st).included);
    assert!(!m.check("user.a", false, true, true, false, &Vec::new(), &mut st).included);
}

#[test]
fn implied_directories_and_no_implied_dirs() {
    let rules = rules_of(parse_rule_list_from_bytes(b"a/b\n", false, '+', 0, &None));
    let m = Matcher::new(rules).with_root("/r".to_string());
    let mut st = FilterStats::new();
    assert!(m.check("a", false, false, true, true, &Vec::new(), &mut st).included);
    assert!(m.check("a/b", false, false, true, false, &Vec::new(), &mut st).included);
    assert!(!m.check("a/c", false, false, true, false, &Vec::new(), &mut st).included);
}

#[test]
fn stats_record_counts() {
    let mut st = FilterStats::new();
    st.record(Some("f"), true);
    st.record(None, false);
    assert_eq!((st.matches, st.misses), (1, 1));
    assert_eq!(st.last_source.as_deref(), Some("f"));
}

#[test]
fn joined_texts_parse_as_their_parts_law() {
    let a = "- a\n: .m\n";
    let b = "+ b/\n";
    let mut joined = summary(&scan(a));
    joined.extend(summary(&scan(b)));
    assert_eq!(summary(&scan(&format!("{}{}", a, b))), joined);
    // without a final line end the last line of the first runs into the second
    let mut parts = summary(&scan("- a"));
    parts.extend(summary(&scan("+ b\n")));
    assert_ne!(summary(&scan("- a+ b\n")), parts);
}

#[test]
fn merge_after_new_law() {
    let a = "- x\n: .m\n+ y\n";
    let b = "- z\n";
    let mut m1 = Matcher::new(rules_of(scan(a)));
    m1.merge(rules_of(scan(b)));
    let m2 = Matcher::new(rules_of(scan(&format!("{}{}", a, b))));
    assert_eq!(m1.max_index(), m2.max_index());
    assert_eq!(m1.rule_count(), m2.rule_count());
    let mut st1 = FilterStats::new();
    let mut st2 = FilterStats::new();
    for p in ["x", "y", "z", "w"] {
        assert_eq!(check(&m1, p, &mut st1), check(&m2, p, &mut st2));
    }
    assert_eq!((st1.matches, st1.misses), (st2.matches, st2.misses));
    // an option rule at the end leaves no index behind
    let mut m3 = Matcher::new(rules_of(scan("- x\nexisting\n")));
    m3.merge(rules_of(scan("- z\n")));
    let m4 = Matcher::new(rules_of(scan("- x\nexisting\n- z\n")));
    assert_ne!(m3.max_index(), m4.max_index());
}

#[test]
fn dir_check_waits_on_children() {
    let m = Matcher::new(Vec::new()).with_root("/r".to_string()).with_prune_empty_dirs();
    let r = MatchResult { included: true, descend: true };
    assert!(m.wants_children(r, true));
    assert!(!m.wants_children(r, false));
    assert!(m.consults_dirs("a", true));
    assert!(!m.consults_dirs("", true));
    assert_eq!(
        oc_rsync::filters::matcher::after_children(r, false),
        MatchResult { included: false, descend: true }
    );
    assert_eq!(oc_rsync::filters::matcher::after_children(r, true), r);
}

#[test]
fn parse_list_trims_and_skips_comments() {
    assert_eq!(parse_list(b"a\r\n\0\0b\n\0", true), vec!["a", "b"]);
    assert_eq!(parse_list(b"# c\n  foo  \n\nbar\n", false), vec!["foo", "bar"]);
}

#[test]
fn oversized_glob_is_an_error_not_a_panic() {
    let pat = "?".repeat(400_000);
    assert!(matches!(compile_glob(&pat), Err(ParseError::Glob(_))));
}

#[test]
fn split_mods_with_non_ascii_body() {
    assert_eq!(split_mods("äs x", "/!Csrpx"), ("", "äs x"));
    assert_eq!(split_mods("s ä", "/!Csrpx"), ("s", "ä"));
}

#[test]
fn split_mods_compares_bytes() {
    // Every byte of "Ʃ" (C6 A9) is a byte of "éƂ" (C3 A9, C6 82).
    assert_eq!(split_mods("Ʃ x", "éƂ"), ("Ʃ", "x"));
    assert_eq!(split_mods("é x", "é"), ("é", "x"));
}
