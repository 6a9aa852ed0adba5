use minutes_app::outlook::{best_matching_event, invitees_from_output, parse_outlook_output, OutlookInvitee};

fn ev(subject: &str) -> (String, Vec<OutlookInvitee>) {
    (subject.to_string(), Vec::new())
}

fn subject_of(r: Option<&(String, Vec<OutlookInvitee>)>) -> Option<&str> {
    r.map(|e| e.0.as_str())
}

#[test]
fn parses_events_and_attendees() {
    let out = "Standup\u{1f}Ann\u{1e}ann@x.com\u{1e}required attendee\u{1d}Bob\u{1e}bob@x.com\u{1e}optional attendee\n\
               \n   \n\
               Review \u{1f} Cy \u{1e} cy@x.com \u{1d}\u{1e}\u{1d}Dee\n\
               Lunch\n\
               Planning\u{1f}";
    let events = parse_outlook_output(out);
    assert_eq!(events.len(), 4);
    assert_eq!(events[0].0, "Standup");
    assert_eq!(events[0].1.len(), 2);
    assert_eq!(events[0].1[0].name, "Ann");
    assert_eq!(events[0].1[0].email, "ann@x.com");
    assert_eq!(events[0].1[0].role, "required attendee");
    assert_eq!(events[0].1[1].role, "optional attendee");
    assert_eq!(events[1].0, "Review");
    assert_eq!(events[1].1.len(), 2);
    assert_eq!(events[1].1[0].name, "Cy");
    assert_eq!(events[1].1[0].email, "cy@x.com");
    assert_eq!(events[1].1[0].role, "required attendee");
    assert_eq!(events[1].1[1].name, "Dee");
    assert_eq!(events[1].1[1].email, "");
    assert_eq!(events[2].0, "Lunch");
    assert!(events[2].1.is_empty());
    assert_eq!(events[3].0, "Planning");
    assert!(events[3].1.is_empty());
}

#[test]
fn parse_keeps_extra_unit_separators_in_block() {
    let events = parse_outlook_output("A\u{1f}x\u{1f}y\u{1e}e");
    assert_eq!(events.len(), 1);
    assert_eq!(events[0].1.len(), 1);
    assert_eq!(events[0].1[0].name, "x\u{1f}y");
    assert_eq!(events[0].1[0].email, "e");
}

#[test]
fn best_match_strategy() {
    let none: Vec<(String, Vec<OutlookInvitee>)> = Vec::new();
    assert!(best_matching_event(&none, Some("x")).is_none());

    let one = vec![ev("Only")];
    assert_eq!(subject_of(best_matching_event(&one, Some("zzz"))), Some("Only"));

    let evs = vec![ev("Weekly Sync"), ev("Design Review"), ev("design review  ")];
    assert_eq!(subject_of(best_matching_event(&evs, None)), Some("Weekly Sync"));
    assert_eq!(subject_of(best_matching_event(&evs, Some(""))), Some("Weekly Sync"));
    // exact, case-insensitive
    assert_eq!(subject_of(best_matching_event(&evs, Some("  DESIGN REVIEW "))), Some("Design Review"));
    // containment: truncated window title
    assert_eq!(subject_of(best_matching_event(&evs, Some("Weekly"))), Some("Weekly Sync"));
    // containment the other way
    assert_eq!(subject_of(best_matching_event(&evs, Some("Re: Weekly Sync notes"))), Some("Weekly Sync"));
    // word overlap picks the best; ties go to the last
    let evs = vec![ev("alpha beta"), ev("gamma delta"), ev("beta gamma epsilon"), ev("zeta")];
    assert_eq!(subject_of(best_matching_event(&evs, Some("gamma beta omega"))), Some("beta gamma epsilon"));
    assert_eq!(subject_of(best_matching_event(&evs, Some("delta alpha"))), Some("gamma delta"));
    // no shared word: the first event
    assert_eq!(subject_of(best_matching_event(&evs, Some("omega psi"))), Some("alpha beta"));
    // a blank title after trimming contains in everything: the first event
    assert_eq!(subject_of(best_matching_event(&evs, Some("   "))), Some("alpha beta"));
    // repeated title words count once
    let evs = vec![ev("one two"), ev("two two three")];
    assert_eq!(subject_of(best_matching_event(&evs, Some("two two four"))), Some("two two three"));
}

#[test]
fn invitees_for_a_title() {
    let out = "\n  Weekly Sync\u{1f}Ann\u{1e}ann@x.com\u{1e}required attendee\nDesign Review\u{1f}Bob\u{1e}bob@x.com  \n";
    let inv = invitees_from_output(out, Some("design review"));
    assert_eq!(inv.len(), 1);
    assert_eq!(inv[0].name, "Bob");
    assert_eq!(inv[0].email, "bob@x.com");
    assert_eq!(inv[0].role, "required attendee");
    let inv = invitees_from_output(out, None);
    assert_eq!(inv[0].name, "Ann");
    assert!(invitees_from_output("  \n ", Some("x")).is_empty());
    assert!(invitees_from_output("", None).is_empty());
}

#[test]
fn printed_dump_reads_back() {
    let events: Vec<(&str, Vec<(&str, &str, &str)>)> = vec![
        ("Weekly Sync", vec![("Ann", "ann@x.com", "required attendee"), ("", "bob@x.com", "")]),
        ("", vec![]),
        ("Planning", vec![("Cy", "", "optional attendee")]),
    ];
    let out = events
        .iter()
        .map(|(s, is)| {
            let block = is
                .iter()
                .map(|(n, e, r)| format!("{}\u{1e}{}\u{1e}{}", n, e, r))
                .collect::<Vec<_>>()
                .join("\u{1d}");
            format!("{}\u{1f}{}", s, block)
        })
        .collect::<Vec<_>>()
        .join("\n");
    let parsed = parse_outlook_output(&out);
    assert_eq!(parsed.len(), events.len());
    for (p, (s, is)) in parsed.iter().zip(events.iter()) {
        assert_eq!(p.0, *s);
        assert_eq!(p.1.len(), is.len());
        for (pi, (n, e, r)) in p.1.iter().zip(is.iter()) {
            assert_eq!((pi.name.as_str(), pi.email.as_str(), pi.role.as_str()), (*n, *e, *r));
        }
    }
    assert!(parse_outlook_output("").is_empty());
}
