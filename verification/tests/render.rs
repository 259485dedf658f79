use madore::render::extract_title;

#[test]
fn atx_heading() {
    assert_eq!(extract_title("# Title\nbody").as_deref(), Some("Title"));
}

#[test]
fn setext_heading() {
    assert_eq!(
        extract_title("Setext\n======\nbody").as_deref(),
        Some("Setext")
    );
}

#[test]
fn skips_closed_front_matter() {
    let md = "---\ntitle: meta\n---\n# Real\nbody";
    assert_eq!(extract_title(md).as_deref(), Some("Real"));
}

#[test]
fn falls_back_when_front_matter_unclosed() {
    let md = "---\ntitle: meta\n\n# Real\nbody";
    assert_eq!(extract_title(md).as_deref(), Some("Real"));
}

#[test]
fn none_when_no_heading() {
    assert_eq!(extract_title("just text\nmore text"), None);
}

#[test]
fn heading_text_is_trimmed_and_crlf_is_cut() {
    assert_eq!(extract_title("   #   Spaced  \r\nbody").as_deref(), Some("Spaced"));
    assert_eq!(extract_title("  Under  \r\n ===  \r\n").as_deref(), Some("Under"));
}

#[test]
fn deeper_headings_and_bare_hashes_are_no_title() {
    assert_eq!(extract_title("## Two\n#NoSpace\n"), None);
    assert_eq!(extract_title("#\n"), None);
    assert_eq!(extract_title("# \nbody").as_deref(), Some(""));
    assert_eq!(extract_title(""), None);
}

#[test]
fn setext_needs_only_equals_signs() {
    assert_eq!(extract_title("Title\n==-=\n"), None);
    assert_eq!(extract_title("Title\n\n===\n"), None);
    assert_eq!(extract_title("#tag\n===\n"), None);
    assert_eq!(extract_title("Title\n=\n").as_deref(), Some("Title"));
}

#[test]
fn heading_inside_front_matter_is_used_when_none_follows() {
    let md = "---\n# Inside\n---\nbody only";
    assert_eq!(extract_title(md).as_deref(), Some("Inside"));
}

#[test]
fn heading_after_front_matter_wins_over_one_inside() {
    let md = "---\n# Inside\n---\n# After";
    assert_eq!(extract_title(md).as_deref(), Some("After"));
}

#[test]
fn fence_may_carry_trailing_spaces() {
    let md = "---  \nk: v\n---\t\nPlain\n===";
    assert_eq!(extract_title(md).as_deref(), Some("Plain"));
}
