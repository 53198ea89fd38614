use lsp_sidecar::project::{
    compile_failure_message, pdf_file_name, template_content, tex_file_name, TemplateChoice,
    TemplateError,
};

#[test]
fn empty_template_is_empty() {
    let r = template_content(&"empty".to_string());
    assert_eq!(r, Ok(TemplateChoice::Fixed(String::new())));
}

#[test]
fn simple_template_is_the_greeting_document() {
    let r = template_content(&"simple".to_string());
    assert_eq!(
        r,
        Ok(TemplateChoice::Fixed(
            "\\documentclass{article}\n\\begin{document}\nHello, World!\n\\end{document}"
                .to_string()
        ))
    );
}

#[test]
fn article_template_is_rendered_by_the_caller() {
    let r = template_content(&"article".to_string());
    assert_eq!(r, Ok(TemplateChoice::Article));
}

#[test]
fn unknown_template_is_refused() {
    let r = template_content(&"fancy".to_string());
    assert_eq!(r, Err(TemplateError::UnknownTemplate));
}

#[test]
fn file_names_follow_the_title() {
    assert_eq!(tex_file_name(&"notes".to_string()), "notes.tex");
    assert_eq!(pdf_file_name(&"notes".to_string()), "notes.pdf");
}

#[test]
fn failure_message_names_both_streams() {
    let msg = compile_failure_message(&"bad input".to_string(), &"warming up".to_string());
    assert_eq!(msg, "stderr: bad input\nstdout: warming up");
}
