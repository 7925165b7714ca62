use resx_engine::api::{
    add_resx_key, insert_resx_key, insert_resx_keys, parse_resx, remove_resx_key,
    remove_resx_keys, rename_resx_key, update_resx_key, update_resx_keys,
};
use resx_engine::grouping::split_locale;
use resx_engine::insert::ResxInsert;
use resx_engine::model::ResxError;
use resx_engine::settings::{AppSettings, SavedGroup};

fn b(s: &str) -> Vec<u8> {
    s.as_bytes().to_vec()
}

fn doc_two() -> Vec<u8> {
    b("<root>\n  <data name=\"Key1\" xml:space=\"preserve\"><value>Value1</value></data>\n  <data name=\"Key2\" xml:space=\"preserve\"><value>Value2</value></data>\n</root>")
}

fn pairs(doc: &Vec<u8>) -> Vec<(String, String)> {
    parse_resx(doc)
        .unwrap()
        .into_iter()
        .map(|(k, v)| {
            (String::from_utf8(k).unwrap(), String::from_utf8(v).unwrap())
        })
        .collect()
}

#[test]
fn parse_reads_entries_in_order() {
    let d = doc_two();
    let m = pairs(&d);
    assert_eq!(
        m,
        vec![
            ("Key1".to_string(), "Value1".to_string()),
            ("Key2".to_string(), "Value2".to_string()),
        ]
    );
}

#[test]
fn parse_unescapes_values() {
    let d = b("<root>\n  <data name=\"K\" xml:space=\"preserve\"><value>a&amp;b&lt;c&gt;d&quot;e&apos;f</value></data>\n</root>");
    let m = pairs(&d);
    assert_eq!(m, vec![("K".to_string(), "a&b<c>d\"e'f".to_string())]);
}

#[test]
fn parse_skips_entries_inside_comments() {
    let d = b("<root>\n  <!--\n  <data name=\"Ghost\" xml:space=\"preserve\"><value>x</value></data>\n  -->\n  <data name=\"Real\" xml:space=\"preserve\"><value>y</value></data>\n</root>");
    let m = pairs(&d);
    assert_eq!(m, vec![("Real".to_string(), "y".to_string())]);
}

#[test]
fn parse_rejects_unterminated_entry() {
    let d = b("<root><data name=\"K\" xml:space=\"preserve\"><value>v</value></root>");
    assert!(parse_resx(&d).is_err());
}

#[test]
fn update_rewrites_only_the_value() {
    let d = doc_two();
    let out = update_resx_key(&d, &b("Key1"), &b("New")).unwrap();
    let expect = b("<root>\n  <data name=\"Key1\" xml:space=\"preserve\"><value>New</value></data>\n  <data name=\"Key2\" xml:space=\"preserve\"><value>Value2</value></data>\n</root>");
    assert_eq!(out, expect);
}

#[test]
fn update_round_trips_through_parse() {
    let d = doc_two();
    let out = update_resx_key(&d, &b("Key2"), &b("Other")).unwrap();
    let m = pairs(&out);
    assert_eq!(
        m,
        vec![
            ("Key1".to_string(), "Value1".to_string()),
            ("Key2".to_string(), "Other".to_string()),
        ]
    );
}

#[test]
fn update_escapes_minimally() {
    let d = doc_two();
    let out = update_resx_key(&d, &b("Key1"), &b("a&b<c>d\"e'f")).unwrap();
    let text = String::from_utf8(out).unwrap();
    assert!(text.contains("<value>a&amp;b&lt;c&gt;d\"e'f</value>"));
}

#[test]
fn update_missing_key_is_a_no_op() {
    let d = doc_two();
    let out = update_resx_key(&d, &b("Absent"), &b("v")).unwrap();
    assert_eq!(out, d);
}

#[test]
fn batch_update_empty_is_byte_identical() {
    let d = doc_two();
    let out = update_resx_keys(&d, &Vec::new()).unwrap();
    assert_eq!(out, d);
}

#[test]
fn batch_update_rewrites_listed_keys() {
    let d = doc_two();
    let ups = vec![(b("Key1"), b("A")), (b("Key2"), b("B"))];
    let out = update_resx_keys(&d, &ups).unwrap();
    let m = pairs(&out);
    assert_eq!(
        m,
        vec![("Key1".to_string(), "A".to_string()), ("Key2".to_string(), "B".to_string())]
    );
}

#[test]
fn marker_survives_every_operation() {
    let mut d = vec![0xefu8, 0xbb, 0xbf];
    d.extend_from_slice(&doc_two());
    let bom = [0xefu8, 0xbb, 0xbf];
    let out = update_resx_key(&d, &b("Key2"), &b("V")).unwrap();
    assert_eq!(&out[..3], &bom);
    let out = update_resx_keys(&d, &Vec::new()).unwrap();
    assert_eq!(&out[..3], &bom);
    let out = rename_resx_key(&d, &b("Key1"), &b("K")).unwrap();
    assert_eq!(&out[..3], &bom);
    let out = insert_resx_key(&d, &b("K3"), &b("V3"), 9).unwrap();
    assert_eq!(&out[..3], &bom);
    let (out, _) = remove_resx_key(&d, &b("Key2")).unwrap();
    assert_eq!(&out[..3], &bom);
    let out = add_resx_key(&d, &b("K4"), &b("V4")).unwrap();
    assert_eq!(&out[..3], &bom);
}

#[test]
fn remove_reports_ordinal_and_collapses_whitespace() {
    let d = doc_two();
    let (out, ord) = remove_resx_key(&d, &b("Key2")).unwrap();
    assert_eq!(ord, Some(1));
    let expect = b("<root>\n  <data name=\"Key1\" xml:space=\"preserve\"><value>Value1</value></data>\n</root>");
    assert_eq!(out, expect);
}

#[test]
fn remove_missing_key_is_a_no_op() {
    let d = doc_two();
    let (out, ord) = remove_resx_key(&d, &b("Absent")).unwrap();
    assert_eq!(ord, None);
    assert_eq!(out, d);
}

#[test]
fn remove_then_insert_restores_the_entries() {
    let d = doc_two();
    let (d2, ord) = remove_resx_key(&d, &b("Key2")).unwrap();
    assert_eq!(ord, Some(1));
    let d3 = insert_resx_key(&d2, &b("Key2"), &b("Value2"), 1).unwrap();
    assert_eq!(pairs(&d3), pairs(&d));
    let text = String::from_utf8(d3).unwrap();
    assert!(text.contains("\n  <data name=\"Key2\" xml:space=\"preserve\">"));
}

#[test]
fn batch_remove_reports_each_ordinal() {
    let d = doc_two();
    let keys = vec![b("Key2"), b("Absent"), b("Key1")];
    let (out, ords) = remove_resx_keys(&d, &keys).unwrap();
    assert_eq!(
        ords,
        vec![(b("Key2"), 1usize), (b("Key1"), 0usize)]
    );
    let text = String::from_utf8(out).unwrap();
    assert!(!text.contains("<data"));
    assert!(text.contains("<root>"));
}

#[test]
fn insert_before_an_entry_matches_its_indentation() {
    let d = doc_two();
    let out = insert_resx_key(&d, &b("Key0"), &b("Value0"), 0).unwrap();
    let m = pairs(&out);
    assert_eq!(m[0], ("Key0".to_string(), "Value0".to_string()));
    assert_eq!(m[1].0, "Key1".to_string());
    let text = String::from_utf8(out).unwrap();
    assert!(text.contains("\n  <data name=\"Key0\" xml:space=\"preserve\">\n    <value>Value0</value>\n  </data>\n  <data name=\"Key1\""));
}

#[test]
fn insert_past_the_end_appends_before_the_root_close() {
    let d = doc_two();
    let out = insert_resx_key(&d, &b("Key3"), &b("Value3"), 7).unwrap();
    let m = pairs(&out);
    assert_eq!(m[2], ("Key3".to_string(), "Value3".to_string()));
    let text = String::from_utf8(out).unwrap();
    assert!(text.ends_with("\n  <data name=\"Key3\" xml:space=\"preserve\">\n    <value>Value3</value>\n  </data>\n</root>"));
}

#[test]
fn insert_without_root_close_fails() {
    let d = b("<top>\n  <data name=\"K\" xml:space=\"preserve\"><value>v</value></data>\n</top>");
    assert!(matches!(insert_resx_key(&d, &b("X"), &b("y"), 5), Err(ResxError::Malformed)));
}

#[test]
fn batch_insert_keeps_caller_order_for_ties() {
    let d = doc_two();
    let items = vec![
        ResxInsert { key: b("A"), value: b("va"), index: 0 },
        ResxInsert { key: b("B"), value: b("vb"), index: 0 },
    ];
    let out = insert_resx_keys(&d, &items).unwrap();
    let m = pairs(&out);
    let keys: Vec<&str> = m.iter().map(|p| p.0.as_str()).collect();
    assert_eq!(keys, vec!["A", "B", "Key1", "Key2"]);
}

#[test]
fn batch_insert_sorts_by_target_rank() {
    let d = doc_two();
    let items = vec![
        ResxInsert { key: b("Late"), value: b("z"), index: 9 },
        ResxInsert { key: b("Early"), value: b("a"), index: 0 },
    ];
    let out = insert_resx_keys(&d, &items).unwrap();
    let m = pairs(&out);
    let keys: Vec<&str> = m.iter().map(|p| p.0.as_str()).collect();
    assert_eq!(keys, vec!["Early", "Key1", "Key2", "Late"]);
}

#[test]
fn rename_touches_only_the_name_attribute() {
    let d = doc_two();
    let out = rename_resx_key(&d, &b("Key1"), &b("First")).unwrap();
    let expect = b("<root>\n  <data name=\"First\" xml:space=\"preserve\"><value>Value1</value></data>\n  <data name=\"Key2\" xml:space=\"preserve\"><value>Value2</value></data>\n</root>");
    assert_eq!(out, expect);
}

#[test]
fn add_refuses_a_present_key_by_literal_check() {
    let d = doc_two();
    assert!(matches!(add_resx_key(&d, &b("Key1"), &b("x")), Err(ResxError::DuplicateKey)));
}

#[test]
fn add_appends_a_new_key() {
    let d = doc_two();
    let out = add_resx_key(&d, &b("Key9"), &b("")).unwrap();
    let m = pairs(&out);
    assert_eq!(m[2], ("Key9".to_string(), "".to_string()));
}

#[test]
fn crlf_documents_get_crlf_in_synthesized_lines() {
    let d = b("<root>\r\n  <data name=\"K\" xml:space=\"preserve\"><value>v</value></data>\r\n</root>");
    let out = insert_resx_key(&d, &b("L"), &b("w"), 5).unwrap();
    let text = String::from_utf8(out).unwrap();
    assert!(text.contains("<data name=\"L\" xml:space=\"preserve\">\r\n    <value>w</value>\r\n  </data>"));
}

#[test]
fn indentation_falls_back_to_four_spaces() {
    let d = b("<root><data name=\"K\" xml:space=\"preserve\"><value>v</value></data></root>");
    let out = add_resx_key(&d, &b("L"), &b("w")).unwrap();
    let text = String::from_utf8(out).unwrap();
    assert!(text.contains("\n    <data name=\"L\" xml:space=\"preserve\">\n        <value>w</value>\n    </data>\n</root>"));
}

#[test]
fn locale_suffix_splits_off() {
    assert_eq!(split_locale(&b("Strings.en-US")), (b("Strings"), b("en-US")));
    assert_eq!(split_locale(&b("App.Strings.de")), (b("App.Strings"), b("de")));
}

#[test]
fn locale_suffix_rejected_when_not_a_code() {
    assert_eq!(split_locale(&b("Strings")), (b("Strings"), b("default")));
    assert_eq!(split_locale(&b("Strings.")), (b("Strings."), b("default")));
    assert_eq!(split_locale(&b("A.0abc")), (b("A.0abc"), b("default")));
    assert_eq!(
        split_locale(&b("A.verylongpart")),
        (b("A.verylongpart"), b("default"))
    );
}

#[test]
fn settings_default_is_empty() {
    let s = AppSettings::default();
    assert_eq!(s.saved_groups.len(), 0);
    assert_eq!(s.theme, "");
    let g = SavedGroup::default();
    assert_eq!(g.name, "");
    assert_eq!(g.directory, "");
}

#[test]
fn comment_with_gt_still_hides_entry() {
    let d = b("<root>\n  <!-- a > b\n  <data name=\"Ghost\" xml:space=\"preserve\"><value>x</value></data>\n  -->\n  <data name=\"Real\" xml:space=\"preserve\"><value>y</value></data>\n</root>");
    let m = pairs(&d);
    assert_eq!(m, vec![("Real".to_string(), "y".to_string())]);
    let (out, ord) = remove_resx_key(&d, &b("Real")).unwrap();
    assert_eq!(ord, Some(0));
    assert_eq!(
        out,
        b("<root>\n  <!-- a > b\n  <data name=\"Ghost\" xml:space=\"preserve\"><value>x</value></data>\n  -->\n</root>")
    );
}

#[test]
fn update_succeeds_on_well_formed_doc_without_key() {
    let d = doc_two();
    let out = update_resx_key(&d, &b("Absent"), &b("v")).unwrap();
    assert_eq!(out, d);
}

#[test]
fn batch_of_one_equals_point_insert() {
    let d = doc_two();
    let point = insert_resx_key(&d, &b("Key3"), &b("Value3"), 1).unwrap();
    let items = vec![ResxInsert { key: b("Key3"), value: b("Value3"), index: 1 }];
    let batch = insert_resx_keys(&d, &items).unwrap();
    assert_eq!(point, batch);
}
