use du_app::policies::{
    control_policies_fit, control_policy_writes, policy_file_path, policy_needs_write, scheduling_policy_text, slicing_policy_filename,
    slicing_policy_fits, slicing_policy_masks, split_control_policies, CONFIG_PATH,
    SCHEDULING_FILENAME, SCHEDULING_FILE_HEADER,
};

/// What the library would write for a control message: the scheduling file text, if
/// any, and the slicing masks with their file names, if any.
fn plan(message: &str) -> (Option<String>, Vec<(String, String)>, bool) {
    let (scheduling, slicing) = split_control_policies(message).expect("one or two lines");
    let scheduling_text = if !scheduling.is_empty() {
        Some(scheduling_policy_text(&scheduling))
    } else {
        None
    };
    let mut masks = Vec::new();
    let mut stopped = false;
    if !slicing.is_empty() {
        assert!(slicing_policy_fits(&slicing));
        let (m, s) = slicing_policy_masks(&slicing);
        stopped = s;
        for (i, mask) in m.into_iter().enumerate() {
            masks.push((slicing_policy_filename(i), mask));
        }
    }
    (scheduling_text, masks, stopped)
}

fn scheduling_file(lines: &[&str]) -> String {
    let mut s = String::from(SCHEDULING_FILE_HEADER);
    for l in lines {
        s.push_str(l);
        s.push('\n');
    }
    s
}

#[test]
fn write_scheduling_policy() {
    let control_policy = "10,20,30";
    let (scheduling, masks, stopped) = plan(control_policy);
    assert_eq!(
        scheduling,
        Some(scheduling_file(&[
            "0::10", "1::20", "2::30", "3::0", "4::0", "5::0", "6::0", "7::0", "8::0", "9::0"
        ]))
    );
    assert!(masks.is_empty());
    assert!(!stopped);
}

#[test]
fn write_slicing_policy() {
    let control_policy = "\n5,10,2";
    let (scheduling, masks, stopped) = plan(control_policy);
    assert_eq!(scheduling, None);
    assert_eq!(
        masks,
        vec![
            (
                "slice_allocation_mask_tenant_0.txt".to_string(),
                "1111100000000000000000000".to_string()
            ),
            (
                "slice_allocation_mask_tenant_1.txt".to_string(),
                "0000011111111110000000000".to_string()
            ),
            (
                "slice_allocation_mask_tenant_2.txt".to_string(),
                "0000000000000001100000000".to_string()
            ),
        ]
    );
    assert!(!stopped);
}

#[test]
fn write_single_policy() {
    let control_policy = "10,20,30\n5,10,2";
    let (scheduling, masks, _) = plan(control_policy);
    assert_eq!(
        scheduling,
        Some(scheduling_file(&[
            "0::10", "1::20", "2::30", "3::0", "4::0", "5::0", "6::0", "7::0", "8::0", "9::0"
        ]))
    );
    assert_eq!(masks.len(), 3);
    assert_eq!(masks[2].1, "0000000000000001100000000");
}

#[test]
fn write_multiple_policies() {
    let first_control_policy = "10,20,30\n5,10,2";
    let second_control_policy = "30,20,10\n2,10,5";
    for i in 1..100 {
        let (scheduling, masks, _) = if i % 2 == 0 {
            plan(first_control_policy)
        } else {
            plan(second_control_policy)
        };
        let scheduling = scheduling.unwrap();
        if i % 2 == 0 {
            assert!(scheduling.ends_with("0::10\n1::20\n2::30\n3::0\n4::0\n5::0\n6::0\n7::0\n8::0\n9::0\n"));
            assert_eq!(masks[0].1, "1111100000000000000000000");
        } else {
            assert!(scheduling.ends_with("0::30\n1::20\n2::10\n3::0\n4::0\n5::0\n6::0\n7::0\n8::0\n9::0\n"));
            assert_eq!(masks[0].1, "1100000000000000000000000");
            assert_eq!(masks[1].1, "0011111111110000000000000");
            assert_eq!(masks[2].1, "0000000000001111100000000");
        }
    }
}

#[test]
fn readme_control_message() {
    // "1,0,0\n5,10,3": policy 1 for the first slice, 0 for the others; 5, 10 and 3 RBGs.
    let (scheduling, masks, stopped) = plan("1,0,0\n5,10,3");
    let scheduling = scheduling.unwrap();
    assert!(scheduling.starts_with(SCHEDULING_FILE_HEADER));
    assert!(scheduling.ends_with("0::1\n1::0\n2::0\n3::0\n4::0\n5::0\n6::0\n7::0\n8::0\n9::0\n"));
    assert_eq!(masks[0].1, "1111100000000000000000000");
    assert_eq!(masks[1].1, "0000011111111110000000000");
    assert_eq!(masks[2].1, "0000000000000001110000000");
    assert!(!stopped);
}

#[test]
fn control_message_parts() {
    assert_eq!(
        split_control_policies("1,0,0"),
        Some(("1,0,0".to_string(), String::new()))
    );
    assert_eq!(
        split_control_policies("\n5,10,3"),
        Some((String::new(), "5,10,3".to_string()))
    );
    assert_eq!(
        split_control_policies("1,0,0\n5,10,3"),
        Some(("1,0,0".to_string(), "5,10,3".to_string()))
    );
    assert_eq!(split_control_policies("1\n2\n3"), None);
    assert_eq!(split_control_policies("1,0,0\n5,10,3\n"), None);
    assert_eq!(split_control_policies(""), Some((String::new(), String::new())));
}

#[test]
fn scheduling_more_slices_than_default() {
    let text = scheduling_policy_text("1,1,1,1,1,1,1,1,1,1,2,2");
    assert!(text.ends_with("9::1\n10::2\n11::2\n"));
    assert_eq!(text.lines().count(), 4 + 12);
}

#[test]
fn scheduling_keeps_policy_text() {
    let text = scheduling_policy_text("a,,b");
    assert!(text.ends_with("0::a\n1::\n2::b\n3::0\n4::0\n5::0\n6::0\n7::0\n8::0\n9::0\n"));
}

#[test]
fn slicing_stops_at_bad_count() {
    let (masks, stopped) = slicing_policy_masks("3,x,4");
    assert_eq!(masks, vec!["1110000000000000000000000".to_string()]);
    assert!(stopped);
    let (masks, stopped) = slicing_policy_masks("256");
    assert!(masks.is_empty());
    assert!(stopped);
    let (masks, stopped) = slicing_policy_masks("+2");
    assert_eq!(masks, vec!["1100000000000000000000000".to_string()]);
    assert!(!stopped);
}

#[test]
fn slicing_cut_to_rbg_num() {
    let (masks, _) = slicing_policy_masks("20,10,3");
    assert_eq!(masks[0], "1111111111111111111100000");
    assert_eq!(masks[1], "0000000000000000000011111");
    assert_eq!(masks[2], "0000000000000000000000000");
    assert!(masks.iter().all(|m| m.len() == 25));
}

#[test]
fn slicing_masks_disjoint_on_values() {
    let (masks, _) = slicing_policy_masks("4,0,7,9,3,6");
    for p in 0..25 {
        let ones = masks.iter().filter(|m| m.as_bytes()[p] == b'1').count();
        assert!(ones <= 1);
    }
}

#[test]
fn slicing_fits_limit() {
    assert!(slicing_policy_fits("200,55"));
    assert!(!slicing_policy_fits("200,56"));
    assert!(slicing_policy_fits("200,x,100"));
    assert!(slicing_policy_fits(""));
}

#[test]
fn policy_paths() {
    assert_eq!(
        policy_file_path(CONFIG_PATH, SCHEDULING_FILENAME),
        "/root/radio_code/scope_config/slicing//slice_scheduling_policy.txt"
    );
    assert_eq!(slicing_policy_filename(12), "slice_allocation_mask_tenant_12.txt");
}

#[test]
fn policy_rewrite_only_when_changed() {
    assert!(!policy_needs_write("0::1\n", "0::1\n"));
    assert!(policy_needs_write("0::1\n", "0::2\n"));
    assert!(policy_needs_write("x", ""));
}

#[test]
fn control_writes_in_order() {
    let input = "1,0,0\n5,10,3";
    assert!(control_policies_fit(input));
    let (writes, stopped) = control_policy_writes(input).unwrap();
    assert!(!stopped);
    assert_eq!(writes.len(), 4);
    assert_eq!(writes[0].0, SCHEDULING_FILENAME);
    assert_eq!(writes[0].1, scheduling_policy_text("1,0,0"));
    assert_eq!(writes[1], ("slice_allocation_mask_tenant_0.txt".to_string(), "1111100000000000000000000".to_string()));
    assert_eq!(writes[3], ("slice_allocation_mask_tenant_2.txt".to_string(), "0000000000000001110000000".to_string()));
}

#[test]
fn empty_parts_write_nothing() {
    let (writes, _) = control_policy_writes("\n5").unwrap();
    assert_eq!(writes, vec![("slice_allocation_mask_tenant_0.txt".to_string(), "1111100000000000000000000".to_string())]);
    let (writes, _) = control_policy_writes("2").unwrap();
    assert_eq!(writes.len(), 1);
    assert_eq!(writes[0].0, SCHEDULING_FILENAME);
    let (writes, stopped) = control_policy_writes("").unwrap();
    assert!(writes.is_empty());
    assert!(!stopped);
    assert_eq!(control_policy_writes("1\n2\n3"), None);
    let (writes, stopped) = control_policy_writes("\n3,x").unwrap();
    assert_eq!(writes.len(), 1);
    assert!(stopped);
    assert!(!control_policies_fit("\n200,100"));
    assert!(control_policies_fit("200,100"));
}

#[test]
fn writing_twice_rewrites_nothing() {
    let mut files: std::collections::HashMap<String, String> = std::collections::HashMap::new();
    let input = "3,1\n4,4,4";
    let mut rewrites = 0;
    for round in 0..2 {
        let (writes, _) = control_policy_writes(input).unwrap();
        for (name, content) in writes {
            let running = files.get(&name).cloned().unwrap_or_default();
            if policy_needs_write(&content, &running) {
                if round == 1 {
                    rewrites += 1;
                }
                files.insert(name, content);
            }
        }
    }
    assert_eq!(rewrites, 0);
    assert_eq!(files.len(), 4);
}
