use tsx_text::fragment::extract_html;
use tsx_text::headings::extract_headers;

#[test]
fn fragments() {
    let text = r#"  //another function \n return(  <Fragment> <h1 id='hello'>hello</h1> </Fragment> )  \n"#;

    assert_eq!(extract_html(text), Some(" <h1 id='hello'>hello</h1> ".to_string()));
}

#[test]
fn headers() {
    let dom_node = "<h1></h1>   <h2 id='1'></h2> ";
    let headers = extract_headers(dom_node);
    assert!(headers.contains(&"<h2 id='1'></h2>".to_string()));
}

#[test]
fn fallback_literal_case() {
    let input = "  return(  <Fragment> <h1 id='hello'>hello</h1> </Fragment> )  ";
    assert_eq!(extract_html(input), Some(" <h1 id='hello'>hello</h1> ".to_string()));
}

#[test]
fn fallback_absent_is_no_match() {
    assert_eq!(extract_html("return ( <div>x</div> )"), None);
    assert_eq!(extract_html(""), None);
    assert_eq!(extract_html("nothing to see here"), None);
}

#[test]
fn fallback_needs_closing_parenthesis() {
    assert_eq!(extract_html("return ( <Fragment>body</Fragment>"), None);
}

#[test]
fn fallback_runs_to_last_close() {
    let input = "return ( <Fragment>A</Fragment> ) return ( <Fragment>B</Fragment> )";
    assert_eq!(
        extract_html(input),
        Some("A</Fragment> ) return ( <Fragment>B".to_string())
    );
}

#[test]
fn fallback_tolerates_whitespace() {
    let input = "return\n  (\n  <Fragment>x</Fragment>\n  )";
    assert_eq!(extract_html(input), Some("x".to_string()));
}

#[test]
fn heading_set_membership_and_size() {
    let headers = extract_headers("<h1></h1>   <h2 id='1'></h2> ");
    assert!(headers.contains(&"<h1></h1>".to_string()));
    assert!(headers.contains(&"<h2 id='1'></h2>".to_string()));
    assert_eq!(headers.len(), 2);
}

#[test]
fn heading_greedy_inner_content() {
    let headers = extract_headers("<h3>a</h3>b</h3>");
    assert_eq!(headers, vec!["<h3>a</h3>b</h3>".to_string()]);
}

#[test]
fn heading_absent() {
    let headers = extract_headers("<div>no headings</div>");
    assert!(headers.is_empty());
}
