use netmon::address::IpAddr;
use netmon::asn::{AsnTable, AsnTableBuilder, CountryCode, DIRECTORY_FILE, RANGES_FILE};
use netmon::text::parse_ip;
use netmon::Error;

/// Documentation ranges throughout: nothing here was observed on anyone's machine, and
/// TEST-NET blocks are reserved precisely so that examples need not borrow real ones.
const RANGES: &str = "\
192.0.2.0\t192.0.2.127\t64500
198.51.100.0\t198.51.100.255\t64501
203.0.113.0\t203.0.113.255\t64502
2001:db8::\t2001:db8::ffff\t64503";

const DIRECTORY: &str = "\
64500\tUS\tEXAMPLE-ONE Example Networks, Inc.
64501\tNone\tEXAMPLE-TWO
64503\tde\tEXAMPLE-SIX";

fn table() -> AsnTable {
    AsnTable::parse(RANGES, DIRECTORY).unwrap()
}

fn ip(raw: &str) -> IpAddr {
    parse_ip(raw.as_bytes()).unwrap()
}

#[test]
fn names_the_network_announcing_an_address() {
    let table = table();
    let found = table.lookup(ip("192.0.2.9")).unwrap();
    assert_eq!(found.number, 64500);
    assert_eq!(found.name, "EXAMPLE-ONE Example Networks, Inc.");
    assert_eq!(found.country.unwrap().as_str(), "US");
}

#[test]
fn both_ends_of_a_block_are_inside_it() {
    // Off-by-one here would silently mis-name the edges of every allocation.
    let table = table();
    assert_eq!(table.lookup(ip("192.0.2.0")).unwrap().number, 64500);
    assert_eq!(table.lookup(ip("192.0.2.127")).unwrap().number, 64500);
    assert!(table.lookup(ip("192.0.2.128")).is_none());
}

#[test]
fn an_address_no_one_announces_is_unnamed() {
    let table = table();
    // Between the first and second blocks, and below the first.
    assert!(table.lookup(ip("198.51.99.255")).is_none());
    assert!(table.lookup(ip("10.0.0.1")).is_none());
    // Above the last IPv4 block.
    assert!(table.lookup(ip("203.0.114.0")).is_none());
}

#[test]
fn the_last_block_in_the_table_still_answers() {
    // `partition_point` returning the length is the case a naive index would drop.
    let table = table();
    assert_eq!(table.lookup(ip("203.0.113.255")).unwrap().number, 64502);
    assert_eq!(
        table.lookup(ip("2001:db8::ffff")).unwrap().number,
        64503,
        "the last IPv6 block too"
    );
}

#[test]
fn the_two_families_never_answer_for_each_other() {
    let table = table();
    assert_eq!(table.lookup(ip("2001:db8::1")).unwrap().number, 64503);
    assert!(table.lookup(ip("2001:db9::1")).is_none());
    // An IPv4-mapped address is not the IPv4 address as far as this table is concerned.
    assert!(table.lookup(ip("::ffff:192.0.2.9")).is_none());
}

#[test]
fn rows_may_arrive_in_any_order() {
    let shuffled = "\
2001:db8::\t2001:db8::ffff\t64503
203.0.113.0\t203.0.113.255\t64502
192.0.2.0\t192.0.2.127\t64500
198.51.100.0\t198.51.100.255\t64501";
    let table = AsnTable::parse(shuffled, DIRECTORY).unwrap();
    assert_eq!(table.lookup(ip("192.0.2.9")).unwrap().number, 64500);
    assert_eq!(table.lookup(ip("203.0.113.1")).unwrap().number, 64502);
    assert_eq!(table.lookup(ip("2001:db8::1")).unwrap().number, 64503);
}

#[test]
fn an_unrouted_block_is_not_an_answer() {
    // Upstream marks unannounced space as AS0. Keeping it would answer "AS0, Not
    // routed" where the honest answer is that nothing is known.
    let ranges = "192.0.2.0\t192.0.2.255\t0";
    let table = AsnTable::parse(ranges, "0\tNone\tNot routed").unwrap();
    assert!(table.lookup(ip("192.0.2.9")).is_none());
    assert!(table.is_empty());
    assert_eq!(table.organisation_count(), 0);
}

#[test]
fn a_missing_country_is_a_gap_and_not_a_failure() {
    let table = table();
    let found = table.lookup(ip("198.51.100.1")).unwrap();
    assert_eq!(found.name, "EXAMPLE-TWO");
    assert!(
        found.country.is_none(),
        "upstream's `None` marker is an absent country, not a country called None"
    );
}

#[test]
fn a_number_missing_from_the_directory_still_names_its_network() {
    // The range file and the directory are two files. A number in one and not the other
    // is still a true fact about routing, and the caller can render it as `AS64502`.
    let table = table();
    let found = table.lookup(ip("203.0.113.1")).unwrap();
    assert_eq!(found.number, 64502);
    assert_eq!(found.name, "");
    assert!(found.country.is_none());
}

#[test]
fn the_first_registration_of_a_number_wins() {
    let directory = "\
64500\tUS\tTHE-BUNDLED-ONE
64500\tFR\tAPPENDED-LATER";
    let table = AsnTable::parse(RANGES, directory).unwrap();
    let found = table.lookup(ip("192.0.2.9")).unwrap();
    assert_eq!(found.name, "THE-BUNDLED-ONE");
    assert_eq!(found.country.unwrap().as_str(), "US");
    assert_eq!(table.organisation_count(), 1);
}

#[test]
fn an_empty_table_answers_nothing_rather_than_failing() {
    let table = AsnTable::parse("", "").unwrap();
    assert!(table.is_empty());
    assert_eq!(table.range_count(), 0);
    assert!(table.lookup(ip("192.0.2.9")).is_none());
}

#[test]
fn blank_lines_and_comments_carry_no_records() {
    let ranges = "\
# generated by the command in assets/asn/README.md

192.0.2.0\t192.0.2.127\t64500
";
    let table = AsnTable::parse(ranges, DIRECTORY).unwrap();
    assert_eq!(table.range_count(), 1);
    assert_eq!(table.lookup(ip("192.0.2.9")).unwrap().number, 64500);
}

#[test]
fn a_malformed_range_row_names_its_file_and_line() {
    // The README promises a botched regeneration fails loudly rather than quietly
    // losing half the table, and this is where that promise is kept.
    let ranges = "\
192.0.2.0\t192.0.2.127\t64500
198.51.100.0\tnot-an-address\t64501";
    let error = AsnTable::parse(ranges, DIRECTORY).unwrap_err();
    let Error::MalformedAsnRow { file, line, .. } = error else {
        panic!("expected a malformed-row error");
    };
    assert_eq!(file, RANGES_FILE);
    assert_eq!(line, 2);
}

#[test]
fn a_range_row_with_the_wrong_field_count_is_rejected() {
    for raw in [
        "192.0.2.0\t192.0.2.127",
        "192.0.2.0\t192.0.2.127\t64500\textra",
        "192.0.2.0 192.0.2.127 64500",
        "192.0.2.0\t192.0.2.127\tsixty-four-thousand",
    ] {
        assert!(
            AsnTable::parse(raw, DIRECTORY).is_err(),
            "{:?} should not parse",
                raw
        );
    }
}

#[test]
fn a_range_whose_ends_disagree_or_run_backwards_is_rejected() {
    // Both would corrupt the sorted search rather than merely lose one row.
    assert!(AsnTable::parse("192.0.2.0\t2001:db8::\t64500", DIRECTORY).is_err());
    assert!(AsnTable::parse("192.0.2.127\t192.0.2.0\t64500", DIRECTORY).is_err());
    assert!(AsnTable::parse("2001:db8::ffff\t2001:db8::\t64500", DIRECTORY).is_err());
}

#[test]
fn a_single_address_block_is_allowed() {
    let table = AsnTable::parse("192.0.2.9\t192.0.2.9\t64500", DIRECTORY).unwrap();
    assert_eq!(table.lookup(ip("192.0.2.9")).unwrap().number, 64500);
    assert!(table.lookup(ip("192.0.2.10")).is_none());
}

#[test]
fn a_malformed_directory_row_names_its_file_and_line() {
    let directory = "64500\tUS\tEXAMPLE-ONE\nnot-a-number\tUS\tEXAMPLE-TWO";
    let error = AsnTable::parse(RANGES, directory).unwrap_err();
    let Error::MalformedAsnRow { file, line, .. } = error else {
        panic!("expected a malformed-row error");
    };
    assert_eq!(file, DIRECTORY_FILE);
    assert_eq!(line, 2);
}

#[test]
fn a_directory_row_missing_a_field_is_rejected() {
    assert!(AsnTable::parse(RANGES, "64500\tUS").is_err());
    assert!(AsnTable::parse(RANGES, "64500").is_err());
}

#[test]
fn a_name_keeps_its_spaces_and_any_tab_inside_it() {
    // The description is the rest of the line, so a stray tab does not truncate a name
    // or turn one row into a parse failure.
    let directory = "64500\tUS\tEXAMPLE-ONE\tExample Networks";
    let table = AsnTable::parse(RANGES, directory).unwrap();
    assert_eq!(
        table.lookup(ip("192.0.2.9")).unwrap().name,
        "EXAMPLE-ONE\tExample Networks"
    );
}

#[test]
fn surrounding_whitespace_is_not_part_of_a_name() {
    let table = AsnTable::parse(RANGES, "64500\tUS\t  EXAMPLE-ONE  ").unwrap();
    assert_eq!(table.lookup(ip("192.0.2.9")).unwrap().name, "EXAMPLE-ONE");
}

#[test]
fn names_stay_separate_in_the_shared_arena() {
    // Every name lives in one string; a wrong offset or length would hand back a
    // neighbour's name, which is exactly the failure a user could never detect.
    let directory = "64500\tUS\tFIRST\n64501\tFR\tSECOND\n64502\tDE\tTHIRD";
    let table = AsnTable::parse(RANGES, directory).unwrap();
    assert_eq!(table.lookup(ip("192.0.2.9")).unwrap().name, "FIRST");
    assert_eq!(table.lookup(ip("198.51.100.1")).unwrap().name, "SECOND");
    assert_eq!(table.lookup(ip("203.0.113.1")).unwrap().name, "THIRD");
}

#[test]
fn a_non_ascii_name_survives_the_arena() {
    // Offsets are byte offsets, so a multi-byte name is where a slicing mistake would
    // surface first.
    let table = AsnTable::parse(RANGES, "64500\tRU\tПример Телеком").unwrap();
    assert_eq!(
        table.lookup(ip("192.0.2.9")).unwrap().name,
        "Пример Телеком"
    );
}

#[test]
fn country_codes_are_two_letters_uppercased() {
    assert_eq!(CountryCode::parse("de").unwrap().as_str(), "DE");
    assert_eq!(CountryCode::parse("US").unwrap().as_str(), "US");
    for raw in ["", "U", "USA", "None", "1A", "u5", " U"] {
        assert!(CountryCode::parse(raw).is_none(), "{:?}", raw);
    }
}

#[test]
fn a_rejected_row_is_quoted_short_enough_to_read() {
    let long = format!("192.0.2.0\t{}\t64500", "x".repeat(500));
    let error = AsnTable::parse(&long, DIRECTORY).unwrap_err();
    let Error::MalformedAsnRow { raw, .. } = error else {
        panic!("expected a malformed-row error");
    };
    assert!(
        raw.chars().count() <= 81,
        "quoted {} chars",
        raw.chars().count()
    );
    assert!(raw.ends_with('…'));
}

#[test]
fn the_table_reports_what_it_holds() {
    let table = table();
    assert_eq!(table.range_count(), 4);
    assert_eq!(table.organisation_count(), 3);
    assert!(!table.is_empty());
    assert!(
        table.approximate_heap_bytes() > 0,
        "the setting states this figure to the user, so it may not be a stub"
    );
}

#[test]
fn reserving_capacity_changes_nothing_about_the_answers() {
    let mut builder = AsnTableBuilder::with_capacity(4, 3);
    for line in RANGES.lines() {
        builder.push_range(line).unwrap();
    }
    for line in DIRECTORY.lines() {
        builder.push_organisation(line).unwrap();
    }
    let table = builder.finish();
    assert_eq!(table.range_count(), 4);
    assert_eq!(
        table.lookup(ip("192.0.2.9")).unwrap().name,
        "EXAMPLE-ONE Example Networks, Inc."
    );
}

#[test]
fn overlapping_blocks_answer_with_the_greatest_start() {
    let ranges = "192.0.2.0\t192.0.2.255\t64500\n192.0.2.64\t192.0.2.127\t64501";
    let table = AsnTable::parse(ranges, DIRECTORY).unwrap();
    assert_eq!(table.lookup(ip("192.0.2.9")).unwrap().number, 64500);
    assert_eq!(table.lookup(ip("192.0.2.100")).unwrap().number, 64501);
    // Past the inner block the outer one is not consulted again.
    assert!(table.lookup(ip("192.0.2.200")).is_none());
}

#[test]
fn range_rows_are_read_before_directory_rows() {
    let error = AsnTable::parse("bad row", "also bad").unwrap_err();
    let Error::MalformedAsnRow { file, line, raw } = error else {
        panic!("expected a malformed-row error");
    };
    assert_eq!(file, RANGES_FILE);
    assert_eq!(line, 1);
    assert_eq!(raw, "bad row");
}

#[test]
fn a_short_rejected_row_is_quoted_whole() {
    let error = AsnTable::parse(RANGES, "64500\tUS").unwrap_err();
    let Error::MalformedAsnRow { raw, .. } = error else {
        panic!("expected a malformed-row error");
    };
    assert_eq!(raw, "64500\tUS");
}

#[test]
fn windows_line_endings_are_read_as_lines() {
    let ranges = "192.0.2.0\t192.0.2.127\t64500\r\n198.51.100.0\t198.51.100.255\t64501\r\n";
    let directory = "64500\tUS\tFIRST\r\n64501\tFR\tSECOND\r\n";
    let table = AsnTable::parse(ranges, directory).unwrap();
    assert_eq!(table.range_count(), 2);
    assert_eq!(table.lookup(ip("192.0.2.9")).unwrap().name, "FIRST");
    assert_eq!(table.lookup(ip("198.51.100.1")).unwrap().name, "SECOND");
}

#[test]
fn an_unrouted_directory_row_registers_nothing() {
    let table = AsnTable::parse(RANGES, "0\tZZ\tNot routed\n64500\tUS\tFIRST").unwrap();
    assert_eq!(table.organisation_count(), 1);
    assert_eq!(table.lookup(ip("192.0.2.9")).unwrap().name, "FIRST");
}

#[test]
fn a_mixed_case_country_reads_uppercased() {
    assert_eq!(CountryCode::parse("dE").unwrap().as_str(), "DE");
    assert_eq!(CountryCode::parse("zz").unwrap().as_str(), "ZZ");
}

#[test]
fn a_name_longer_than_the_index_allows_is_rejected() {
    let long = format!("64500\tUS\t{}", "n".repeat(70_000));
    let error = AsnTable::parse(RANGES, &long).unwrap_err();
    let Error::MalformedAsnRow { file, line, .. } = error else {
        panic!("expected a malformed-row error");
    };
    assert_eq!(file, DIRECTORY_FILE);
    assert_eq!(line, 1);
}

#[test]
fn the_builder_counts_rows_across_blank_lines() {
    let mut builder = AsnTableBuilder::default();
    assert!(builder.push_range("").is_ok());
    assert!(builder.push_range("# comment").is_ok());
    let error = builder.push_range("192.0.2.0").unwrap_err();
    let Error::MalformedAsnRow { line, .. } = error else {
        panic!("expected a malformed-row error");
    };
    assert_eq!(line, 3);
}

#[test]
fn the_memory_figure_counts_reserved_room_and_names_exactly() {
    let table = table();
    let names: usize = ["EXAMPLE-ONE Example Networks, Inc.", "EXAMPLE-TWO", "EXAMPLE-SIX"]
        .iter()
        .map(|n| n.len())
        .sum();
    assert_eq!(table.heap_bytes(0, 0, 0), names);
    let block = table.heap_bytes(1, 0, 0) - names;
    assert!(block > 0);
    assert_eq!(table.heap_bytes(0, 1, 0), names + block, "both families of block weigh the same");
    assert_eq!(table.heap_bytes(3, 2, 0), names + 5 * block);
    let registration = table.heap_bytes(0, 0, 1) - names;
    assert!(registration > 0);
    assert_eq!(table.heap_bytes(2, 1, 4), names + 3 * block + 4 * registration);
    assert_eq!(table.heap_bytes(usize::MAX, 0, 0), usize::MAX, "the figure saturates");
    assert!(table.approximate_heap_bytes() >= table.heap_bytes(4, 0, 3));
}

#[test]
fn a_country_code_reads_back_from_its_own_text() {
    for raw in ["gb", "US", "dE", "zz"] {
        let code = CountryCode::parse(raw).unwrap();
        let text = code.as_str();
        assert_eq!(text.len(), 2);
        assert!(text.bytes().all(|b| b.is_ascii_uppercase()));
        assert_eq!(CountryCode::parse(text), Some(code));
    }
}
