use sportsat::br2::{br2_heuristic, global_br2, Br2Report, Br2Search, SolveResult};
use sportsat::breaks::{lazy_break_var, BreakVars};
use sportsat::compact::encode_compact_2rr;
use sportsat::document::{instance_from_nodes, read_instance, ParseError};
use sportsat::error::EncodeError;
use sportsat::format::{format_schedule, format_schedule_xml, games_of_slot};
use sportsat::formula::Formula;
use sportsat::instance::{Br1, Br2, BreakLimit, Capacity, Constraints};
use sportsat::lit::Bool;
use sportsat::pattern::{force_pattern, text_lines};
use sportsat::table::VarTable;
use sportsat::text::decimal;
use sportsat::xml::{parse_i32, parse_i64, parse_ids, parse_meetings, parse_u32, split_text, XmlNode};

fn league(teams: Vec<i64>) -> (Formula, VarTable) {
    let slots: Vec<i64> = (0..2 * (teams.len() as i64 - 1)).collect();
    let mut f = Formula::new();
    let t = encode_compact_2rr(&mut f, &slots, &teams, false);
    (f, t)
}

fn next_model(model: &mut Vec<bool>) -> bool {
    for i in 0..model.len() {
        if model[i] {
            model[i] = false;
        } else {
            model[i] = true;
            return true;
        }
    }
    false
}

fn models(f: &Formula) -> Vec<Vec<bool>> {
    let mut found = Vec::new();
    let mut model = vec![false; f.roles.len()];
    loop {
        if f.check(&model) {
            found.push(model.clone());
        }
        if !next_model(&mut model) {
            break;
        }
    }
    found
}

#[test]
fn a_pattern_is_forced() {
    let (mut f, t) = league(vec![0, 1]);
    let rules = f.constraints.len();
    assert_eq!(force_pattern(&mut f, &t, &b"10\n01\n".to_vec()), Ok(()));
    assert_eq!(f.constraints.len(), rules + 4);
    let found = models(&f);
    assert_eq!(found.len(), 1);
    assert!(t.home[0][0].value(&found[0]));
    assert!(!t.home[1][0].value(&found[0]));
    assert!(!t.home[0][1].value(&found[0]));
    assert!(t.home[1][1].value(&found[0]));
}

#[test]
fn a_pattern_that_no_tournament_has_leaves_no_model() {
    let (mut f, t) = league(vec![0, 1]);
    assert_eq!(force_pattern(&mut f, &t, &b"11\r\n11".to_vec()), Ok(()));
    assert!(models(&f).is_empty());
}

#[test]
fn a_text_that_is_no_pattern_is_refused() {
    let (mut f, t) = league(vec![0, 1]);
    let rules = f.constraints.len();
    for text in ["10\n", "10\n01\n10\n", "10\n0\n", "10\n0x\n", "", "10\n01\r"] {
        assert_eq!(force_pattern(&mut f, &t, &text.as_bytes().to_vec()), Err(EncodeError::Unsupported), "{:?}", text);
    }
    assert_eq!(f.constraints.len(), rules);
    // the teams are not numbered from zero
    let (mut f, t) = league(vec![5, 6]);
    assert_eq!(force_pattern(&mut f, &t, &b"10\n01\n".to_vec()), Err(EncodeError::UnknownVariable));
}

#[test]
fn lines_of_a_text() {
    let lines = |text: &str| -> Vec<String> {
        text_lines(&text.as_bytes().to_vec()).into_iter().map(|l| String::from_utf8(l).unwrap()).collect()
    };
    assert_eq!(lines("a\r\nb\nc"), vec!["a", "b", "c"]);
    assert_eq!(lines("a\n"), vec!["a"]);
    assert_eq!(lines("\n"), vec![""]);
    assert_eq!(lines("\n\nx"), vec!["", "", "x"]);
    assert_eq!(lines("a\r"), vec!["a\r"]);
    assert_eq!(lines(""), Vec::<String>::new());
    for text in ["a\r\nb\nc", "a\n", "\n", "\n\nx", "a\r", "", "\r\n", "x\n\r\ny\r\r\n"] {
        let expected: Vec<String> = text.lines().map(|l| l.to_string()).collect();
        assert_eq!(lines(text), expected, "{:?}", text);
    }
}

#[test]
fn numbers_in_text() {
    assert_eq!(parse_i64("0"), Some(0));
    assert_eq!(parse_i64("-12"), Some(-12));
    assert_eq!(parse_i64("+12"), Some(12));
    assert_eq!(parse_i64("007"), Some(7));
    assert_eq!(parse_i64("9223372036854775807"), Some(i64::MAX));
    assert_eq!(parse_i64("9223372036854775808"), None);
    assert_eq!(parse_i64("-9223372036854775808"), Some(i64::MIN));
    assert_eq!(parse_i64("-9223372036854775809"), None);
    assert_eq!(parse_i64("99999999999999999999999999999999999999999"), None);
    for bad in ["", "-", "+", " 1", "1 ", "1-", "--1", "1.0", "a"] {
        assert_eq!(parse_i64(bad), None, "{:?}", bad);
        assert_eq!(parse_u32(bad), None, "{:?}", bad);
    }
    assert_eq!(parse_u32("4294967295"), Some(u32::MAX));
    assert_eq!(parse_u32("4294967296"), None);
    assert_eq!(parse_u32("-0"), None);
    assert_eq!(parse_u32("+5"), Some(5));
    assert_eq!(parse_i32("-2147483648"), Some(i32::MIN));
    assert_eq!(parse_i32("2147483648"), None);
    for text in ["0", "-0", "+0", "12", "-", "", "18446744073709551616", "٣"] {
        assert_eq!(parse_i64(text), text.parse::<i64>().ok(), "{:?}", text);
        assert_eq!(parse_u32(text), text.parse::<u32>().ok(), "{:?}", text);
        assert_eq!(parse_i32(text), text.parse::<i32>().ok(), "{:?}", text);
    }
}

#[test]
fn lists_in_text() {
    assert_eq!(split_text("a;b;;c;", ';'), vec!["a", "b", "", "c", ""]);
    assert_eq!(split_text("", ';'), vec![""]);
    assert_eq!(split_text("abc", ';'), vec!["abc"]);
    assert_eq!(parse_ids("0;12;-3"), Some(vec![0, 12, -3]));
    assert_eq!(parse_ids("7"), Some(vec![7]));
    assert_eq!(parse_ids(""), None);
    assert_eq!(parse_ids("1;"), None);
    assert_eq!(parse_ids("1;x"), None);
    assert_eq!(parse_meetings("0,1;2,3;"), Some(vec![(0, 1), (2, 3)]));
    assert_eq!(parse_meetings(""), Some(vec![]));
    assert_eq!(parse_meetings(";;1,0"), Some(vec![(1, 0)]));
    assert_eq!(parse_meetings("0,1,2;"), None);
    assert_eq!(parse_meetings("0;"), None);
    assert_eq!(parse_meetings("0,x;"), None);
}

fn instance_text(slots: &str, format: &str, constraints: &str) -> String {
    format!(
        "<?xml version=\"1.0\"?>\n<Instance>\n<MetaData><InstanceName>Tiny</InstanceName></MetaData>\n\
         <Structure><Format leagueIds=\"0\">{}</Format></Structure>\n\
         <ObjectiveFunction><Objective>SC</Objective></ObjectiveFunction>\n\
         <Resources>\n<Leagues><league id=\"0\" name=\"L\"/></Leagues>\n\
         <Teams><team id=\"0\" league=\"0\" name=\"A\"/><!-- the guest --><team id=\"1\" league=\"0\" name=\"B\"/></Teams>\n\
         <Slots>{}</Slots>\n</Resources>\n<Constraints>{}</Constraints>\n</Instance>\n",
        format, slots, constraints
    )
}

const TWO_SLOTS: &str = "<slot id=\"0\" name=\"S0\"/><slot id=\"1\" name=\"S1\"/>";
const PHASED: &str =
    "<numberRoundRobin>2</numberRoundRobin><compactness>C</compactness><gameMode>P</gameMode>";

#[test]
fn an_instance_is_read() {
    let constraints = "<BasicConstraints/>\
        <CapacityConstraints>\
        <CA1 max=\"0\" min=\"0\" mode=\"H\" penalty=\"1\" slots=\"0\" teams=\"0\" type=\"HARD\"/>\
        <CA4 max=\"2\" min=\"0\" mode1=\"HA\" mode2=\"EVERY\" penalty=\"3\" slots=\"0;1\" teams1=\"0\" teams2=\"1\" type=\"SOFT\"/>\
        <CA3 intp=\"2\" max=\"1\" min=\"0\" mode1=\"A\" mode2=\"SLOTS\" penalty=\"1\" teams1=\"0;1\" teams2=\"0;1\" type=\"HARD\"/>\
        </CapacityConstraints>\
        <GameConstraints><GA1 max=\"1\" meetings=\"0,1;\" min=\"1\" penalty=\"2\" slots=\"1\" type=\"SOFT\"/></GameConstraints>\
        <BreakConstraints>\
        <BR1 intp=\"0\" mode2=\"HA\" penalty=\"5\" slots=\"1\" teams=\"1\" type=\"SOFT\"/>\
        <BR2 homeMode=\"HA\" intp=\"2\" mode2=\"LEQ\" penalty=\"1\" slots=\"0;1\" teams=\"0;1\" type=\"HARD\"/>\
        </BreakConstraints>\
        <FairnessConstraints><FA2 intp=\"1\" mode=\"H\" penalty=\"4\" slots=\"0;1\" teams=\"0;1\" type=\"SOFT\"/></FairnessConstraints>\
        <SeparationConstraints><SE1 mode1=\"SLOTS\" min=\"1\" penalty=\"7\" teams=\"0;1\" type=\"SOFT\"/></SeparationConstraints>";
    let instance = read_instance(&instance_text(TWO_SLOTS, PHASED, constraints)).unwrap();
    assert_eq!(instance.team_ids, vec![0, 1]);
    assert_eq!(instance.slot_ids, vec![0, 1]);
    assert!(instance.phased);
    let cs = &instance.constraints;
    assert_eq!(cs.capacity.len(), 3);
    match &cs.capacity[0] {
        Capacity::Ca1(c) => {
            assert!(c.hard && c.home);
            assert_eq!((c.penalty, c.max, c.min), (1, 0, Some(0)));
            assert_eq!((c.teams.clone(), c.slots.clone()), (vec![0], vec![0]));
        },
        other => panic!("{:?}", other),
    }
    match &cs.capacity[1] {
        Capacity::Ca4(c) => {
            assert!(!c.hard && !c.global);
            assert_eq!((c.home, c.penalty, c.max), (None, 3, 2));
            assert_eq!((c.teams1.clone(), c.teams2.clone(), c.slots.clone()), (vec![0], vec![1], vec![0, 1]));
        },
        other => panic!("{:?}", other),
    }
    match &cs.capacity[2] {
        Capacity::Ca3(c) => {
            assert!(c.hard && c.by_slots);
            assert_eq!((c.home, c.max, c.intp), (Some(false), 1, 2));
        },
        other => panic!("{:?}", other),
    }
    assert_eq!(cs.game.len(), 1);
    assert_eq!(cs.game[0].meetings, vec![(0, 1)]);
    assert_eq!((cs.game[0].min, cs.game[0].max, cs.game[0].penalty), (Some(1), Some(1), Some(2)));
    assert_eq!(cs.breaks.len(), 2);
    match &cs.breaks[0] {
        BreakLimit::Br1(c) => assert_eq!((c.hard, c.home, c.intp, c.penalty), (false, None, 0, Some(5))),
        other => panic!("{:?}", other),
    }
    match &cs.breaks[1] {
        BreakLimit::Br2(c) => assert!(c.hard && c.regular_or_any_venue && c.intp == 2),
        other => panic!("{:?}", other),
    }
    assert_eq!(cs.fairness.len(), 1);
    assert!(cs.fairness[0].home_games && cs.fairness[0].penalty == 4 && cs.fairness[0].intp == 1);
    assert_eq!(cs.separation.len(), 1);
    assert_eq!((cs.separation[0].min, cs.separation[0].max, cs.separation[0].penalty), (1, None, 7));
}

#[test]
fn an_instance_without_constraints_is_read() {
    let time_relaxed = "<numberRoundRobin>2</numberRoundRobin><compactness>C</compactness><gameMode>NULL</gameMode>";
    let instance = read_instance(&instance_text(TWO_SLOTS, time_relaxed, "")).unwrap();
    assert!(!instance.phased);
    assert!(instance.constraints.capacity.is_empty());
    assert!(instance.constraints.separation.is_empty());
}

#[test]
fn texts_that_are_no_instance_are_refused() {
    let refused = |text: String| read_instance(&text).err();
    assert_eq!(refused(String::from("<Instance>")), Some(ParseError::NotXml));
    assert_eq!(refused(String::from("no document")), Some(ParseError::NotXml));
    assert_eq!(refused(String::from("<Other/>")), Some(ParseError::Malformed));
    assert_eq!(refused(String::from("<Instance/>")), Some(ParseError::Malformed));
    // three slots for two teams
    let three = format!("{}<slot id=\"2\"/>", TWO_SLOTS);
    assert_eq!(refused(instance_text(&three, PHASED, "")), Some(ParseError::WrongSize));
    // a single round-robin tournament
    let single = "<numberRoundRobin>1</numberRoundRobin><compactness>C</compactness><gameMode>P</gameMode>";
    assert_eq!(refused(instance_text(TWO_SLOTS, single, "")), Some(ParseError::Malformed));
    // not compact
    let relaxed = "<numberRoundRobin>2</numberRoundRobin><compactness>R</compactness><gameMode>P</gameMode>";
    assert_eq!(refused(instance_text(TWO_SLOTS, relaxed, "")), Some(ParseError::Malformed));
    // a slot without a number
    assert_eq!(refused(instance_text("<slot id=\"0\"/><slot id=\"x\"/>", PHASED, "")), Some(ParseError::Malformed));
    // constraints that are not known or lack what they need
    for bad in [
        "<CapacityConstraints><CA9 type=\"HARD\" penalty=\"1\"/></CapacityConstraints>",
        "<CapacityConstraints><CA1 max=\"0\" mode=\"H\" slots=\"0\" teams=\"0\" type=\"HARD\"/></CapacityConstraints>",
        "<CapacityConstraints><CA1 max=\"0\" mode=\"HA\" penalty=\"1\" slots=\"0\" teams=\"0\" type=\"HARD\"/></CapacityConstraints>",
        "<CapacityConstraints><CA1 max=\"0\" mode=\"H\" penalty=\"1\" slots=\"0\" teams=\"0\" type=\"FIRM\"/></CapacityConstraints>",
        "<CapacityConstraints><CA1 max=\"-1\" mode=\"H\" penalty=\"1\" slots=\"0\" teams=\"0\" type=\"HARD\"/></CapacityConstraints>",
        "<GameConstraints><GA2 meetings=\"\" slots=\"0\" type=\"HARD\"/></GameConstraints>",
        "<BreakConstraints><BR1 intp=\"0\" mode2=\"X\" slots=\"1\" teams=\"1\" type=\"HARD\"/></BreakConstraints>",
        "<SeparationConstraints><SE1 penalty=\"7\" teams=\"0;1\" type=\"SOFT\"/></SeparationConstraints>",
    ] {
        assert_eq!(refused(instance_text(TWO_SLOTS, PHASED, bad)), Some(ParseError::Malformed), "{}", bad);
    }
    assert_eq!(instance_from_nodes(&Vec::new()).err(), Some(ParseError::Malformed));
    let lonely = XmlNode { depth: 1, is_element: false, name: String::new(), attributes: vec![], text: None };
    assert_eq!(instance_from_nodes(&vec![lonely]).err(), Some(ParseError::Malformed));
}

#[test]
fn decimal_text() {
    assert_eq!(decimal(0), "0");
    assert_eq!(decimal(7), "7");
    assert_eq!(decimal(10), "10");
    assert_eq!(decimal(-305), "-305");
    assert_eq!(decimal(i64::MAX), "9223372036854775807");
    assert_eq!(decimal(i64::MIN), "-9223372036854775808");
}

fn two_team_schedule() -> Vec<Vec<Vec<bool>>> {
    let mut grid = vec![vec![vec![false; 2]; 2]; 2];
    grid[0][0][1] = true;
    grid[1][1][0] = true;
    grid
}

#[test]
fn a_schedule_as_a_table() {
    let slots: Vec<i64> = vec![0, 1];
    let teams: Vec<i64> = vec![0, 1];
    let grid = two_team_schedule();
    assert_eq!(games_of_slot(&grid, &teams, 1), vec![(1, 0)]);
    assert_eq!(format_schedule(&slots, &teams, &grid), Some(String::from("  s0     s1   \n  0,1    1,0  \n")));
    // longer numbers fill their fields
    let slots: Vec<i64> = vec![100, 12345];
    let teams: Vec<i64> = vec![10, 123];
    assert_eq!(
        format_schedule(&slots, &teams, &grid),
        Some(String::from(" s100   s12345 \n 10,123  123,10 \n"))
    );
    // a slot with a game less has no row for it
    let mut fewer = two_team_schedule();
    fewer[1][1][0] = false;
    assert_eq!(format_schedule(&slots, &teams, &fewer), None);
    let empty: Vec<Vec<Vec<bool>>> = Vec::new();
    assert_eq!(format_schedule(&Vec::new(), &Vec::new(), &empty), None);
    // no games at all: the heads alone
    let none = vec![vec![vec![false; 2]; 2]; 2];
    assert_eq!(format_schedule(&vec![0, 1], &vec![0, 1], &none), Some(String::from("  s0     s1   \n")));
}

#[test]
fn a_schedule_as_a_solution_document() {
    let slots: Vec<i64> = vec![0, 1];
    let teams: Vec<i64> = vec![4, 7];
    let out = format_schedule_xml("Tiny.xml", "Tiny", &slots, &teams, &two_team_schedule());
    assert_eq!(
        out,
        "<Solution>\n  <MetaData>\n    <InstanceName>Tiny.xml</InstanceName>\n    \
         <SolutionName>Tiny_bjornarl_0_99999999_today.xml</SolutionName>\n    \
         <ObjectiveValue infeasibility=\"0\" objective=\"99999999\" />\n  </MetaData>\n  <Games>\n    \
         <ScheduledMatch home=\"4\" away=\"7\" slot=\"0\" />\n    \
         <ScheduledMatch home=\"7\" away=\"4\" slot=\"1\" />\n  </Games>\n</Solution>\n"
    );
}

fn season_limit(hard: bool, teams: Vec<i64>, intp: u32) -> BreakLimit {
    BreakLimit::Br2(Br2 { hard, penalty: Some(1), regular_or_any_venue: true, teams, slots: vec![0, 1], intp })
}

#[test]
fn the_limit_on_the_breaks_of_the_season() {
    let (_, t) = league(vec![0, 1]);
    let mut cs = Constraints { capacity: vec![], game: vec![], breaks: vec![], fairness: vec![], separation: vec![] };
    assert_eq!(global_br2(&cs, &t), Err(EncodeError::NoSeasonBreakLimit));
    cs.breaks.push(BreakLimit::Br1(Br1 { hard: true, penalty: None, teams: vec![0], slots: vec![1], intp: 9, home: None }));
    cs.breaks.push(season_limit(false, vec![0, 1], 8));
    cs.breaks.push(season_limit(true, vec![0], 7));
    assert_eq!(global_br2(&cs, &t), Err(EncodeError::NoSeasonBreakLimit));
    cs.breaks.push(season_limit(true, vec![0, 1], 6));
    cs.breaks.push(season_limit(true, vec![0, 1], 5));
    assert_eq!(global_br2(&cs, &t), Ok(6));
    cs.breaks.insert(
        0,
        BreakLimit::Br2(Br2 {
            hard: false,
            penalty: None,
            regular_or_any_venue: false,
            teams: vec![],
            slots: vec![],
            intp: 0,
        }),
    );
    assert_eq!(global_br2(&cs, &t), Err(EncodeError::Unsupported));
}

#[test]
fn the_search_for_few_breaks() {
    let (mut f, t) = league(vec![0, 1]);
    let mut breaks = BreakVars::new();
    let a = lazy_break_var(&mut f, &mut breaks, &t, 1, 0, true);
    let b = lazy_break_var(&mut f, &mut breaks, &t, 1, 0, false);
    let c = lazy_break_var(&mut f, &mut breaks, &t, 1, 1, true);
    let mut search = Br2Search::new(&breaks, 4);
    assert_eq!(search.all_breaks, vec![a.negate(), b.negate(), c.negate()]);
    assert_eq!(search.breaks, search.all_breaks);
    // a model in which the first and the third break variable hold
    let mut model = vec![false; f.roles.len()];
    model[a.lit().unwrap().0] = true;
    model[c.lit().unwrap().0] = true;
    let report = br2_heuristic(&mut search, &SolveResult::Sat(model));
    assert_eq!(report, Some(Br2Report::Breaks { broken: 2, allowed: 4 }));
    assert_eq!(search.breaks.len(), 3);
    // a core takes its literals out
    let report = br2_heuristic(&mut search, &SolveResult::Unsat(vec![c.negate(), a.negate()]));
    assert_eq!(report, Some(Br2Report::CoreRemoved { len: 2 }));
    assert_eq!(search.breaks, vec![b.negate()]);
    assert_eq!(search.all_breaks.len(), 3);
    // a core with a literal that is not assumed
    assert_eq!(br2_heuristic(&mut search, &SolveResult::Unsat(vec![a.negate()])), None);
    assert_eq!(br2_heuristic(&mut search, &SolveResult::Unsat(vec![b.negate(), b.negate()])), None);
    assert_eq!(br2_heuristic(&mut search, &SolveResult::Unsat(vec![Bool::Const(true)])), None);
    assert_eq!(search.breaks, vec![b.negate()]);
}
