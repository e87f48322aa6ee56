use vban_common::parameter::{parse_assignment, parse_name};
use vban_common::{parse_request, Parameter, Target};

fn switch(value: &str) -> Option<bool> {
    Parameter {
        target: Target::Unknown,
        field: String::new(),
        value: value.to_owned(),
        raw: String::new(),
    }
    .as_bool()
}

#[test]
fn one_assignment() {
    let read = parse_request("Strip[0].Gain=-6.0;");
    assert_eq!(read.len(), 1);
    assert_eq!(read[0].target, Target::Strip(0));
    assert_eq!(read[0].field, "gain");
    assert_eq!(read[0].value.trim().parse::<f32>().ok(), Some(-6.0));
}

/// Clients pack a whole scene change into one datagram, and the order
/// has to survive: two writes to the same parameter mean the last wins.
#[test]
fn many_assignments_keep_their_order() {
    let read = parse_request("Bus[1].Mute=1;Bus[1].Mute=0;Strip[2].A1=1");
    assert_eq!(read.len(), 3);
    assert_eq!(read[0].as_bool(), Some(true));
    assert_eq!(read[1].as_bool(), Some(false));
    assert_eq!(read[2].target, Target::Strip(2));
    assert_eq!(read[2].field, "a1");
}

#[test]
fn newlines_separate_as_well_as_semicolons() {
    let read = parse_request("Strip[0].Mute=1\nStrip[1].Mute=1\r\nStrip[2].Mute=1");
    assert_eq!(read.len(), 3);
}

#[test]
fn case_does_not_matter_and_dots_are_kept() {
    let read = parse_request("BUS[0].EQ.On=1;bus[0].mode.amix=1");
    assert_eq!(read[0].target, Target::Bus(0));
    assert_eq!(read[0].field, "eq.on");
    assert_eq!(read[1].field, "mode.amix");
}

#[test]
fn a_label_keeps_its_spaces_and_loses_its_quotes() {
    let read = parse_request("Strip[3].Label=\"Game Audio\";");
    assert_eq!(read[0].value, "Game Audio");
}

#[test]
fn the_verbs_have_no_index() {
    let read = parse_request("Command.Restart=1;Recorder.Record=1");
    assert_eq!(read[0].target, Target::Command);
    assert_eq!(read[0].field, "restart");
    assert_eq!(read[1].target, Target::Recorder);
}

/// One bad line should cost that line and nothing else.
#[test]
fn rubbish_is_dropped_and_the_rest_applies() {
    let read = parse_request("Strip[0].Gain=-6;garbage;Strip[;=;Strip[1].Gain=-3");
    assert_eq!(read.len(), 2, "{read:?}");
    assert_eq!(read[0].target, Target::Strip(0));
    assert_eq!(read[1].target, Target::Strip(1));
}

#[test]
fn switches_take_the_words_people_type() {
    for (text, expected) in [
        ("1", true),
        ("0", false),
        ("on", true),
        ("OFF", false),
        ("true", true),
        ("1.0", true),
    ] {
        let read = parse_request(&format!("Strip[0].Mute={text}"));
        assert_eq!(read[0].as_bool(), Some(expected), "{text}");
    }
}

/// Our own namespace, which Voicemeeter does not have and so cannot
/// clash with.
#[test]
fn our_own_commands_are_their_own_target() {
    let read = parse_request("PipeMeeter.Window=reverb;pipemeeter.dump=1");
    assert_eq!(read[0].target, Target::App);
    assert_eq!(read[0].field, "window");
    assert_eq!(read[0].value, "reverb");
    assert_eq!(read[1].target, Target::App);
}

#[test]
fn something_we_do_not_implement_is_named_rather_than_guessed() {
    let read = parse_request("Patch.Composite[0]=3;Vban.Instream[0].On=1");
    assert!(read.iter().all(|p| p.target == Target::Unknown));
}

#[test]
fn every_kind_wants_its_index_or_none() {
    for (name, target) in [
        ("Strip[1].X", Target::Strip(1)),
        ("Bus[2].X", Target::Bus(2)),
        ("Button[70].X", Target::Button(70)),
        ("Command.X", Target::Command),
        ("Command[3].X", Target::Command),
        ("Recorder.X", Target::Recorder),
        ("PipeMeeter.X", Target::App),
        ("Strip.X", Target::Unknown),
        ("Bus.X", Target::Unknown),
        ("Button.X", Target::Unknown),
        ("Recorder[0].X", Target::Unknown),
        ("PipeMeeter[0].X", Target::Unknown),
        (".X", Target::Unknown),
        ("[0].X", Target::Unknown),
        ("Striped[0].X", Target::Unknown),
    ] {
        let read = parse_request(&format!("{name}=1"));
        assert_eq!(read.len(), 1, "{name}");
        assert_eq!(read[0].target, target, "{name}");
        assert_eq!(read[0].field, "x", "{name}");
    }
}

#[test]
fn spaces_are_trimmed_everywhere() {
    let read = parse_request(" \t Strip [ +07 ] . Eq. On \u{a0} =  \" a \" \u{3000};");
    assert_eq!(read.len(), 1);
    assert_eq!(read[0].target, Target::Strip(7));
    assert_eq!(read[0].field, "eq. on");
    assert_eq!(read[0].value, " a ");
    assert_eq!(
        read[0].raw,
        "Strip [ +07 ] . Eq. On \u{a0} =  \" a \""
    );
}

#[test]
fn an_index_is_a_whole_number_that_fits() {
    let most = usize::MAX;
    let read = parse_request(&format!("Strip[{most}].X=1;Strip[000{most}].X=1"));
    assert_eq!(read.len(), 2);
    assert_eq!(read[0].target, Target::Strip(most));
    assert_eq!(read[1].target, Target::Strip(most));
    for digits in [
        "", "+", "-1", "-0", "1.0", "a", "1 2", "++1", "0x1", "99999999999999999999999999999999999",
    ] {
        assert_eq!(digits.parse::<usize>().ok(), None);
        assert!(parse_request(&format!("Strip[{digits}].X=1")).is_empty(), "{digits}");
    }
    let over = format!("{}", most as u128 + 1);
    assert!(parse_request(&format!("Strip[{over}].X=1")).is_empty());
}

#[test]
fn what_cannot_be_placed_is_dropped() {
    for line in [
        "", "  ", "=", "=1", "X=1", "Strip[0]=1", "Strip[0].=1", "Strip[0].  =1", "Strip[0.X=1",
        "Strip0].X", "Strip[0]x.X=1", "Strip[.X=1", "Strip[0].Gain",
    ] {
        assert!(parse_request(line).is_empty(), "{line}");
    }
}

#[test]
fn the_value_is_everything_behind_the_first_equals_sign() {
    let read = parse_request("Strip[0].Label=a=b;Strip[0].Label=;Strip[0].Label=\"\"\"x\"");
    assert_eq!(read.len(), 3);
    assert_eq!(read[0].value, "a=b");
    assert_eq!(read[1].value, "");
    assert_eq!(read[2].value, "x");
}

#[test]
fn requests_follow_each_other() {
    let first = "Strip[0].Mute=1;rubbish";
    let second = "Bus[1].Label=\"é\"\nBus[2].Mono=on";
    for separator in [";", "\n", "\r"] {
        let both = parse_request(&format!("{first}{separator}{second}"));
        let mut apart = parse_request(first);
        apart.extend(parse_request(second));
        assert_eq!(both, apart);
        assert_eq!(both.len(), 3);
    }
}

#[test]
fn a_kept_line_says_the_same_alone() {
    let read = parse_request(" Strip[0].Mute = 1 ;x; BUS[1].Gain=\" -3 \"");
    assert_eq!(read.len(), 2);
    for parameter in read {
        let raw = parameter.raw.clone();
        assert_eq!(parse_request(&raw), vec![parameter]);
    }
}

#[test]
fn names_that_differ_in_case_are_the_same() {
    let low = parse_request("strip[5].label=AbC");
    let high = parse_request("STRIP[5].LABEL=AbC");
    assert_eq!(low[0].target, high[0].target);
    assert_eq!(low[0].field, high[0].field);
    assert_eq!(low[0].value, high[0].value);
    assert_eq!(high[0].raw, "STRIP[5].LABEL=AbC");
    // Only ASCII letters have a case here.
    let read = parse_request("Strip[0].É=1");
    assert_eq!(read[0].field, "É");
}

#[test]
fn switches_take_every_word_in_any_case() {
    for word in ["1", "on", "true", "yes", "ON", "True", "yEs", " on ", "\tYES\n"] {
        assert_eq!(switch(word), Some(true), "{word}");
    }
    for word in ["0", "off", "false", "no", "OFF", "False", "nO", " off "] {
        assert_eq!(switch(word), Some(false), "{word}");
    }
    for word in ["", "maybe", "o n", "onn", "y", "n", "--1", "1..0", "0x1", "1_000"] {
        assert_eq!(switch(word), None, "{word}");
    }
}

#[test]
fn whole_numbers_are_switches() {
    assert_eq!(switch("2"), Some(true));
    assert_eq!(switch("00"), Some(false));
    assert_eq!(switch("0000000000000000000000000000000000000000001"), Some(true));
}

/// A number that is not zero is on, as single precision has it.
#[test]
fn numbers_are_switches_as_single_precision_has_them() {
    let long_nought = format!("0.{}", "0".repeat(400));
    let long_tiny = format!("0.{}1", "0".repeat(400));
    let long_tiny_mended = format!("0.{}1e401", "0".repeat(400));
    let long_large = format!("1{}", "0".repeat(400));
    let long_large_shrunk = format!("1{}e-430", "0".repeat(400));
    let long_large_gone = format!("1{}e-450", "0".repeat(400));
    let exact_half = "7.00649232162408535461864791644958065640130970938257885878534141944895541342930300743319094181060791015625e-46";
    let above_half = "7.006492321624085354618647916449580656401309709382578858785341419448955413429303007433190941810607910156250000001e-46";
    let below_half = "7.006492321624085354618647916449580656401309709382578858785341419448955413429303007433190941810607910156249999999e-46";
    for word in [
        "1.0", "0.0", "-0.0", "-1", "+1", "+0", "1.", ".5", ".0", "0.", ".", "+", "-", "e", "e5",
        "1e", "1e+", "1e-", "1e5", "1e-5", "1e+5", "0e5", "0e99999999999999999999999", ".e1",
        "1.e1", ".1e1", "1e5.0", "1 e5", "1e 5", "1e999999999999999999999999",
        "1e-999999999999999999999999", "-1e-999999999999999999999999", "inf", "-inf", "+inf",
        "INF", "infinity", "-Infinity", "infinit", "nan", "-nan", "NaN", "nana", "1e-44", "1e-45",
        "8e-46", "7.1e-46", "7.01e-46", "7.00649232162409e-46", "7.0064923216240853e-46",
        "7.0064923216240854e-46", "7.006492321624085e-46", "7e-46", "6e-46", "1e-46", "1e-47",
        "0.00000000000000000000000000000000000000000000070064923216240854",
        "0.00000000000000000000000000000000000000000000070064923216240853",
        "70064923216240854e-62", "70064923216240853e-62", "1.4e-45", "1e38", "1e39", "-1e39",
        "1.0f", "1,0", "0x10", "٣", exact_half, above_half, below_half, &long_nought, &long_tiny,
        &long_tiny_mended, &long_large, &long_large_shrunk, &long_large_gone,
    ] {
        let expected = word.parse::<f32>().ok().map(|value| value != 0.0);
        assert_eq!(switch(word), expected, "{word}");
    }
    assert_eq!(switch(exact_half), Some(false));
    assert_eq!(switch(above_half), Some(true));
    assert_eq!(switch(below_half), Some(false));
}

/// Every exponent near the edge of single precision, and digits around it.
#[test]
fn numbers_near_the_edge_are_switches() {
    for exponent in -70..-30 {
        for digits in ["1", "7", "70", "71", "700649", "700650", "0.7", "9.99", "00.07006493"] {
            let word = format!("{digits}e{exponent}");
            let expected = word.parse::<f32>().ok().map(|value| value != 0.0);
            assert_eq!(switch(&word), expected, "{word}");
        }
    }
}

#[test]
fn a_line_alone_is_an_assignment() {
    let read = parse_assignment("Bus[1].Label = \"\"Main Out\" ").expect("an assignment");
    assert_eq!(read.target, Target::Bus(1));
    assert_eq!(read.field, "label");
    assert_eq!(read.value, "Main Out");
    assert_eq!(read.raw, "Bus[1].Label = \"\"Main Out\" ");
    assert_eq!(parse_assignment(""), None);
    assert_eq!(parse_assignment("Bus[1].Label"), None);
    assert_eq!(parse_assignment("Bus.=1"), None);
}

#[test]
fn a_name_alone_is_placed_in_any_case() {
    let expected = Some((Target::Button(3), "state.on".to_owned()));
    for name in ["Button[3].State.On", "BUTTON[3].STATE.ON", "button[3].state.on"] {
        assert_eq!(parse_name(name), expected);
    }
    assert_eq!(parse_name("Button[3]"), None);
    assert_eq!(parse_name("Button[x].State"), None);
}

/// Where the value is a number the switch says whether it is zero, and where
/// it is neither a number nor a word there is no switch.
#[test]
fn a_switch_follows_the_number() {
    for value in [" 1 ", "0", "1E0", "-0", "NAN", "Inf", "on", "no", "", "x", "1e-50", "+2.5E-3"] {
        let number = value.trim().parse::<f32>().ok();
        match number {
            Some(number) => assert_eq!(switch(value), Some(number != 0.0), "{value}"),
            None => assert_eq!(switch(value).is_some(), value == "on" || value == "no", "{value}"),
        }
    }
}
