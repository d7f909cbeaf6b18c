use ip_scanner::ip_creator::{
    create_ips, expand_block, expand_cidr, expand_ip_line, expand_lines, expand_range,
    has_ranges, is_single_ip_line, parse_percent, sample_count, sample_group, sample_groups,
    sampled_group, ExpandError, IpGroup,
};

fn strings(items: &[&str]) -> Vec<String> {
    items.iter().map(|s| s.to_string()).collect()
}

#[test]
fn block_of_24_bits_excludes_first_and_last_address() {
    let ips = expand_cidr("192.168.1.0/24").unwrap();
    assert_eq!(ips.len(), 254);
    assert_eq!(ips[0], "192.168.1.1");
    assert_eq!(ips[1], "192.168.1.2");
    assert_eq!(ips[253], "192.168.1.254");
    assert!(!ips.contains(&"192.168.1.0".to_string()));
    assert!(!ips.contains(&"192.168.1.255".to_string()));
}

#[test]
fn block_of_one_address_yields_that_address() {
    assert_eq!(expand_cidr("10.0.0.5/32").unwrap(), strings(&["10.0.0.5"]));
}

#[test]
fn block_of_two_addresses_yields_nothing() {
    assert_eq!(expand_cidr("10.0.0.4/31").unwrap(), Vec::<String>::new());
}

#[test]
fn block_is_taken_around_the_address_as_written() {
    assert_eq!(expand_cidr("10.0.0.5/30").unwrap(), strings(&["10.0.0.5", "10.0.0.6"]));
    assert_eq!(expand_block(0x0a00_0005, 30), strings(&["10.0.0.5", "10.0.0.6"]));
}

#[test]
fn block_with_netmask_is_read_as_prefix() {
    assert_eq!(
        expand_cidr("10.0.0.0/255.255.255.252").unwrap(),
        strings(&["10.0.0.1", "10.0.0.2"])
    );
}

#[test]
fn block_that_is_no_block_is_a_parse_error() {
    assert_eq!(expand_cidr("10.0.0.0/33"), Err(ExpandError::ParseError));
    assert_eq!(expand_cidr("10.0.0/24"), Err(ExpandError::ParseError));
    assert_eq!(expand_cidr("10.0.0.0/24/1"), Err(ExpandError::ParseError));
    assert_eq!(expand_cidr(" 10.0.0.0/24"), Err(ExpandError::ParseError));
}

#[test]
fn range_of_one_address() {
    assert_eq!(expand_range("10.0.0.1-10.0.0.1").unwrap(), strings(&["10.0.0.1"]));
}

#[test]
fn range_that_ends_before_it_starts_is_invalid() {
    assert_eq!(expand_range("10.0.0.5-10.0.0.1"), Err(ExpandError::InvalidRange));
}

#[test]
fn range_of_70000_addresses_is_too_large() {
    // 10.0.0.0 .. 10.1.17.111 holds 70000 addresses
    assert_eq!(expand_range("10.0.0.0-10.1.17.111"), Err(ExpandError::RangeTooLarge));
}

#[test]
fn range_of_65536_addresses_is_the_largest() {
    let ips = expand_range("10.0.0.0-10.0.255.255").unwrap();
    assert_eq!(ips.len(), 65536);
    assert_eq!(ips[0], "10.0.0.0");
    assert_eq!(ips[256], "10.0.1.0");
    assert_eq!(ips[65535], "10.0.255.255");
    assert_eq!(expand_range("10.0.0.0-10.1.0.0"), Err(ExpandError::RangeTooLarge));
}

#[test]
fn range_up_to_the_last_address() {
    assert_eq!(
        expand_range("255.255.255.254 - 255.255.255.255").unwrap(),
        strings(&["255.255.255.254", "255.255.255.255"])
    );
}

#[test]
fn range_with_a_bad_end_is_a_parse_error() {
    assert_eq!(expand_range("10.0.0.1-10.0.0"), Err(ExpandError::ParseError));
    assert_eq!(expand_range("10.0.0.1-10.0.0.2-10.0.0.3"), Err(ExpandError::ParseError));
    assert_eq!(expand_range("10.0.0.1"), Err(ExpandError::ParseError));
    assert_eq!(expand_range("10.0.0.01-10.0.0.2"), Err(ExpandError::ParseError));
    assert_eq!(expand_range("10.0.0.256-10.0.1.2"), Err(ExpandError::ParseError));
}

#[test]
fn line_kinds() {
    assert_eq!(expand_ip_line("  8.8.8.8 ").unwrap(), strings(&["8.8.8.8"]));
    assert_eq!(expand_ip_line("").unwrap(), Vec::<String>::new());
    assert_eq!(expand_ip_line(" \t").unwrap(), Vec::<String>::new());
    assert_eq!(expand_ip_line("10.0.0.0/30").unwrap(), strings(&["10.0.0.1", "10.0.0.2"]));
    assert_eq!(expand_ip_line("10.0.0.1-10.0.0.2").unwrap(), strings(&["10.0.0.1", "10.0.0.2"]));
    assert_eq!(expand_ip_line("example.org"), Err(ExpandError::ParseError));
    assert_eq!(expand_ip_line("1.2.3"), Err(ExpandError::ParseError));
    assert_eq!(expand_ip_line("1.2.3.4.5"), Err(ExpandError::ParseError));
    assert_eq!(expand_ip_line("1.2.3.04"), Err(ExpandError::ParseError));
    assert_eq!(expand_ip_line("1.2.3.256"), Err(ExpandError::ParseError));
    assert_eq!(expand_ip_line("0.0.0.0").unwrap(), strings(&["0.0.0.0"]));
}

#[test]
fn single_lines() {
    assert!(is_single_ip_line("8.8.8.8"));
    assert!(is_single_ip_line(" 8.8.8.8\r"));
    assert!(!is_single_ip_line("8.8.8.0/24"));
    assert!(!is_single_ip_line("8.8.8.1-8.8.8.2"));
    assert!(!is_single_ip_line(""));
    assert!(!is_single_ip_line("host"));
}

#[test]
fn lines_become_groups_and_bad_lines_are_skipped() {
    let expansion = expand_lines("8.8.8.8\r\n\n  10.0.0.0/30  \nnonsense\n10.0.0.4/31\n10.0.0.9-10.0.0.8\n1.1.1.1");
    let groups = &expansion.groups;
    assert_eq!(groups.len(), 3);
    assert_eq!(groups[0].label, "8.8.8.8");
    assert_eq!(groups[0].ips, strings(&["8.8.8.8"]));
    assert!(groups[0].is_single);
    assert_eq!(groups[1].label, "10.0.0.0/30");
    assert_eq!(groups[1].ips, strings(&["10.0.0.1", "10.0.0.2"]));
    assert!(!groups[1].is_single);
    assert_eq!(groups[2].label, "1.1.1.1");
    assert_eq!(expansion.skipped.len(), 2);
    assert_eq!(expansion.skipped[0].line, "nonsense");
    assert_eq!(expansion.skipped[0].error, ExpandError::ParseError);
    assert_eq!(expansion.skipped[1].line, "10.0.0.9-10.0.0.8");
    assert_eq!(expansion.skipped[1].error, ExpandError::InvalidRange);
    assert!(has_ranges(groups));
    assert!(!has_ranges(&expand_lines("8.8.8.8\n1.1.1.1").groups));
}

#[test]
fn percent_answers() {
    assert_eq!(parse_percent("50\n"), 50);
    assert_eq!(parse_percent(""), 100);
    assert_eq!(parse_percent("\n"), 100);
    assert_eq!(parse_percent("0"), 0);
    assert_eq!(parse_percent("+7"), 7);
    assert_eq!(parse_percent("007"), 7);
    assert_eq!(parse_percent("100"), 100);
    assert_eq!(parse_percent("101"), 100);
    assert_eq!(parse_percent("99999999999999999999999"), 100);
    assert_eq!(parse_percent("-5"), 100);
    assert_eq!(parse_percent("+"), 100);
    assert_eq!(parse_percent("5 0"), 100);
    assert_eq!(parse_percent("ten"), 100);
}

#[test]
fn sample_sizes() {
    assert_eq!(sample_count(10, 50), 5);
    assert_eq!(sample_count(10, 0), 1);
    assert_eq!(sample_count(10, 1), 1);
    assert_eq!(sample_count(10, 11), 2);
    assert_eq!(sample_count(3, 34), 2);
    assert_eq!(sample_count(100, 7), 7);
    assert_eq!(sample_count(254, 100), 254);
    assert_eq!(sample_count(254, 250), 254);
    assert_eq!(sample_count(0, 50), 0);
    assert_eq!(sample_count(usize::MAX, u32::MAX), usize::MAX);
}

#[test]
fn sampling_half_of_ten_addresses() {
    let ips = expand_range("10.0.0.1-10.0.0.10").unwrap();
    assert_eq!(ips.len(), 10);
    let group = IpGroup { label: "10.0.0.1-10.0.0.10".to_string(), ips: ips.clone(), is_single: false };
    let sampled = sample_group(group, 50);
    assert_eq!(sampled.label, "10.0.0.1-10.0.0.10 (sample 50%)");
    assert!(!sampled.is_single);
    assert_eq!(sampled.ips.len(), 5);
    for (i, ip) in sampled.ips.iter().enumerate() {
        assert!(ips.contains(ip));
        assert!(!sampled.ips[..i].contains(ip));
    }
}

#[test]
fn sampling_draws_different_targets_over_time() {
    let ips = expand_range("10.0.0.1-10.0.0.200").unwrap();
    let mut differs = false;
    for _ in 0..20 {
        let group = IpGroup { label: "r".to_string(), ips: ips.clone(), is_single: false };
        let sampled = sample_group(group, 10);
        assert_eq!(sampled.ips.len(), 20);
        if sampled.ips != ips[..20].to_vec() {
            differs = true;
        }
    }
    assert!(differs);
}

#[test]
fn sampling_keeps_single_addresses_and_full_groups() {
    let single = IpGroup { label: "8.8.8.8".to_string(), ips: strings(&["8.8.8.8"]), is_single: true };
    let kept = sample_group(single, 0);
    assert_eq!(kept.label, "8.8.8.8");
    assert_eq!(kept.ips, strings(&["8.8.8.8"]));
    assert!(kept.is_single);
    let block = IpGroup { label: "10.0.0.0/30".to_string(), ips: strings(&["10.0.0.1", "10.0.0.2"]), is_single: false };
    let whole = sample_group(block, 100);
    assert_eq!(whole.label, "10.0.0.0/30 (sample 100%)");
    assert_eq!(whole.ips, strings(&["10.0.0.1", "10.0.0.2"]));
}

#[test]
fn sampled_group_is_labelled_with_the_percentage() {
    let g = sampled_group("a-b", strings(&["x"]), 7);
    assert_eq!(g.label, "a-b (sample 7%)");
    assert_eq!(g.ips, strings(&["x"]));
    assert!(!g.is_single);
}

#[test]
fn groups_without_targets_are_dropped_by_sampling() {
    let groups = vec![
        IpGroup { label: "a".to_string(), ips: Vec::new(), is_single: false },
        IpGroup { label: "b".to_string(), ips: strings(&["1.1.1.1", "1.1.1.2"]), is_single: false },
    ];
    let sampled = sample_groups(groups, 50);
    assert_eq!(sampled.len(), 1);
    assert_eq!(sampled[0].label, "b (sample 50%)");
    assert_eq!(sampled[0].ips.len(), 1);
}

#[test]
fn address_list_to_sampled_groups() {
    let groups = create_ips("8.8.8.8\n192.168.1.0/24\nbad line\n10.0.0.1-10.0.0.10\n", 50);
    assert_eq!(groups.len(), 3);
    assert_eq!(groups[0].label, "8.8.8.8");
    assert_eq!(groups[0].ips, strings(&["8.8.8.8"]));
    assert_eq!(groups[1].label, "192.168.1.0/24 (sample 50%)");
    assert_eq!(groups[1].ips.len(), 127);
    assert_eq!(groups[2].label, "10.0.0.1-10.0.0.10 (sample 50%)");
    assert_eq!(groups[2].ips.len(), 5);
}

#[test]
fn blocks_are_bounded_as_the_network_crate_bounds_them() {
    for addr in [0x0a00_0005u32, 0xc0a8_01fe, 0xffff_ffff, 0, 0x7f00_0001, 0x8000_0000] {
        for prefix in 16..=32u8 {
            let net = ipnetwork::Ipv4Network::new(addr.into(), prefix).unwrap();
            let network = u32::from(net.network());
            let broadcast = u32::from(net.broadcast());
            let theirs: Vec<String> = net
                .iter()
                .filter(|ip| u32::from(*ip) != network && u32::from(*ip) != broadcast)
                .map(|ip| ip.to_string())
                .collect();
            let ours = expand_block(addr, prefix);
            if prefix == 32 {
                assert_eq!(ours, vec![net.ip().to_string()]);
            } else {
                assert_eq!(ours, theirs, "{}/{}", addr, prefix);
            }
        }
    }
}

#[test]
fn empty_address_list_has_no_groups() {
    assert_eq!(expand_lines("").groups.len(), 0);
    assert_eq!(expand_lines("\n\n  \n").groups.len(), 0);
    assert_eq!(expand_lines("\n\n  \n").skipped.len(), 0);
    assert_eq!(create_ips("", 50).len(), 0);
}

#[test]
fn address_list_at_full_percentage_keeps_every_target_in_order() {
    let groups = create_ips("10.0.0.0/29\n10.0.1.1-10.0.1.3", 100);
    assert_eq!(groups.len(), 2);
    assert_eq!(groups[0].label, "10.0.0.0/29 (sample 100%)");
    assert_eq!(
        groups[0].ips,
        strings(&["10.0.0.1", "10.0.0.2", "10.0.0.3", "10.0.0.4", "10.0.0.5", "10.0.0.6"])
    );
    assert_eq!(groups[1].label, "10.0.1.1-10.0.1.3 (sample 100%)");
    assert_eq!(groups[1].ips, strings(&["10.0.1.1", "10.0.1.2", "10.0.1.3"]));
}

#[test]
fn every_target_is_a_single_address() {
    for ip in expand_cidr("172.16.5.0/28").unwrap() {
        assert!(is_single_ip_line(&ip));
        assert_eq!(expand_ip_line(&ip).unwrap(), vec![ip.clone()]);
    }
}

#[test]
fn groups_hold_no_target_twice() {
    let groups = create_ips("10.0.0.0/26\n10.0.1.250-10.0.2.10\n8.8.8.8\n255.255.255.252/30", 37);
    assert_eq!(groups.len(), 4);
    for group in &groups {
        for (i, ip) in group.ips.iter().enumerate() {
            assert!(!group.ips[..i].contains(ip), "{} twice in {}", ip, group.label);
        }
    }
    // 37% of 62 is 22.94, of 17 is 6.29
    assert_eq!(groups[0].ips.len(), 23);
    assert_eq!(groups[1].ips.len(), 7);
}
