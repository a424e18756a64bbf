use tcp_localhost::homepage::{
    empty_index_str, report_line_str, template_line_str, update_links, LinkError,
};

fn block_open() -> &'static str {
    "<div class=\"link-block\">"
}

/// A well-formed navigation page whose two regions hold the given text.
fn page_with(tregion: &str, rregion: &str) -> String {
    format!(
        "<body>{o}<h1>Templates</h1>{t}</div>{o}<h1>Reports</h1>{r}</div></body>",
        o = block_open(),
        t = tregion,
        r = rregion,
    )
}

fn tline(stem: &str) -> String {
    template_line_str().replace("tdoc", stem)
}

fn rline(stem: &str) -> String {
    report_line_str().replace("rdoc", stem)
}

#[test]
fn regions_are_rewritten_with_sorted_entries() {
    let page = page_with("TOLD", "ROLD");
    let templates = vec![
        "/r/Templates/b.html".to_string(),
        "/r/Templates/a.html".to_string(),
        "/r/Templates/skip.txt".to_string(),
    ];
    let reports = vec![
        "/r/Reports/a.html".to_string(),
        "/r/Reports/b.html".to_string(),
    ];
    let t_agg = format!("{}{}", tline("a"), tline("b"));
    let r_agg = format!("{}{}", rline("a"), rline("b"));
    let expected = page.replace("TOLD", &t_agg).replace("ROLD", &r_agg);
    assert_eq!(update_links(&page, &templates, &reports), Ok(Some(expected)));
}

#[test]
fn second_run_writes_nothing() {
    let page = page_with("TOLD", "ROLD");
    let templates = vec![
        "/r/Templates/b.html".to_string(),
        "/r/Templates/a.html".to_string(),
    ];
    let reports = vec!["/r/Reports/a.html".to_string()];
    let rewritten = match update_links(&page, &templates, &reports) {
        Ok(Some(u)) => u,
        other => panic!("first run should rewrite, got {:?}", other),
    };
    assert_eq!(update_links(&rewritten, &templates, &reports), Ok(None));
}

#[test]
fn listing_order_does_not_matter() {
    let page = page_with("TOLD", "ROLD");
    let forward = vec![
        "/r/Templates/a.html".to_string(),
        "/r/Templates/b.html".to_string(),
        "/r/Templates/c.html".to_string(),
    ];
    let backward = vec![
        "/r/Templates/c.html".to_string(),
        "/r/Templates/b.html".to_string(),
        "/r/Templates/a.html".to_string(),
    ];
    let reports = vec!["/r/Reports/a.html".to_string()];
    assert_eq!(
        update_links(&page, &forward, &reports),
        update_links(&page, &backward, &reports)
    );
}

#[test]
fn empty_trees_abort_regeneration() {
    let page = page_with("TOLD", "ROLD");
    let templates = vec!["/r/Templates/a.html".to_string()];
    let reports = vec!["/r/Reports/a.html".to_string()];
    assert_eq!(
        update_links(&page, &vec![], &reports),
        Err(LinkError::EmptyTemplates)
    );
    assert_eq!(
        update_links(&page, &templates, &vec![]),
        Err(LinkError::EmptyReports)
    );
    let only_other = vec!["/r/Templates/readme.txt".to_string()];
    assert_eq!(
        update_links(&page, &only_other, &reports),
        Err(LinkError::EmptyTemplates)
    );
}

#[test]
fn error_messages_name_the_tree() {
    assert_eq!(LinkError::EmptyTemplates.message(), "empty Templates");
    assert_eq!(LinkError::EmptyReports.message(), "empty Reports");
}

#[test]
fn fresh_placeholder_page_fails_on_empty_trees() {
    // Scenario: a fresh root whose placeholder page has no regions yet and
    // whose trees are empty: regeneration reports the guard error and hands
    // back no content to write.
    assert_eq!(
        update_links(empty_index_str(), &vec![], &vec![]),
        Err(LinkError::EmptyTemplates)
    );
}

#[test]
fn created_file_lands_in_sorted_position() {
    // Scenario: the page already lists a and c; b.html's creation arrives
    // as an event, and regeneration puts b between them.
    let templates_before = vec![
        "/r/Templates/a.html".to_string(),
        "/r/Templates/c.html".to_string(),
    ];
    let reports = vec![
        "/r/Reports/a.html".to_string(),
        "/r/Reports/c.html".to_string(),
    ];
    let page = page_with("TOLD", "ROLD");
    let settled = match update_links(&page, &templates_before, &reports) {
        Ok(Some(u)) => u,
        other => panic!("expected a rewrite, got {:?}", other),
    };
    let templates_after = vec![
        "/r/Templates/a.html".to_string(),
        "/r/Templates/c.html".to_string(),
        "/r/Templates/b.html".to_string(),
    ];
    let updated = match update_links(&settled, &templates_after, &reports) {
        Ok(Some(u)) => u,
        other => panic!("expected a rewrite, got {:?}", other),
    };
    let expected_region = format!("{}{}{}", tline("a"), tline("b"), tline("c"));
    assert!(updated.contains(&expected_region));
}

#[test]
fn single_block_page_uses_the_fallback_for_the_second_region() {
    // only one block: its region is rewritten; the second region falls back
    // to the built-in report line, which the page does not contain, so that
    // substitution leaves no trace
    let page = format!("A{}<h1>T</h1>TOLD</div>B", block_open());
    let templates = vec!["/r/Templates/a.html".to_string()];
    let reports = vec!["/r/Reports/a.html".to_string()];
    let expected = page.replace("TOLD", &tline("a"));
    assert_eq!(update_links(&page, &templates, &reports), Ok(Some(expected)));
}

#[test]
fn block_without_heading_is_skipped() {
    // the first block has no heading-close marker, so the second block's
    // region is taken for the Templates links and the Reports region falls
    // back to its default line
    let page = format!(
        "A{o}no heading here</div>{o}<h1>R</h1>ROLD</div>B",
        o = block_open()
    );
    let templates = vec!["/r/Templates/a.html".to_string()];
    let reports = vec!["/r/Reports/a.html".to_string()];
    let expected = page.replace("ROLD", &tline("a"));
    assert_eq!(update_links(&page, &templates, &reports), Ok(Some(expected)));
}

#[test]
fn removal_regenerates_from_the_remaining_files() {
    // Scenario: a.html's removal arrives after its counterpart already
    // vanished; the deletion is a non-fatal miss, and the page is still
    // regenerated from what is left.
    let page = page_with("TOLD", "ROLD");
    let remaining_templates = vec!["/r/Templates/b.html".to_string()];
    let remaining_reports = vec!["/r/Reports/b.html".to_string()];
    let expected = page.replace("TOLD", &tline("b")).replace("ROLD", &rline("b"));
    assert_eq!(
        update_links(&page, &remaining_templates, &remaining_reports),
        Ok(Some(expected))
    );
}
