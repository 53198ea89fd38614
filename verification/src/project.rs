//! The computing side of project management: which starting content a new
//! project gets for a template name, the file names a project title maps
//! to, and the message a failed compilation reports. The filesystem writes
//! and the typesetting process around these live with the caller.

use vstd::prelude::*;
use vstd::string::StringExecFns;

verus! {

/// The body of the `simple` template.
pub open spec fn simple_template_text() -> Seq<char> {
    "\\documentclass{article}\n\\begin{document}\nHello, World!\n\\end{document}"@
}

/// What a template name selects.
#[derive(Debug, PartialEq, Eq)]
pub enum TemplateChoice {
    /// A fixed body, ready to write.
    Fixed(String),
    /// The article template, whose body is rendered outside from the title.
    Article,
}

/// Why a template name was refused.
#[derive(Clone, Copy, Debug, PartialEq, Eq, Structural)]
pub enum TemplateError {
    /// The name matches no known template.
    UnknownTemplate,
}

/// The starting content for a new project: `empty` is the empty body,
/// `simple` a fixed greeting document, `article` is rendered from the
/// title by the caller; any other name is refused.
pub fn template_content(template: &String) -> (r: Result<TemplateChoice, TemplateError>)
    ensures
        template@ == "empty"@ ==> (r matches Ok(TemplateChoice::Fixed(s)) && s@ == ""@),
        template@ == "simple"@ ==> (r matches Ok(TemplateChoice::Fixed(s)) && s@
            == simple_template_text()),
        template@ == "article"@ ==> r == Ok::<TemplateChoice, TemplateError>(
            TemplateChoice::Article,
        ),
        (template@ != "empty"@ && template@ != "simple"@ && template@ != "article"@) ==> r
            == Err::<TemplateChoice, TemplateError>(TemplateError::UnknownTemplate),
{
    proof {
        reveal_strlit("empty");
        reveal_strlit("simple");
        reveal_strlit("article");
        reveal_strlit("\\documentclass{article}\n\\begin{document}\nHello, World!\n\\end{document}");
    }
    proof {
        // the lengths tell the three names apart
        assert("empty"@.len() == 5);
        assert("simple"@.len() == 6);
        assert("article"@.len() == 7);
    }
    if *template == "empty".to_owned() {
        Ok(TemplateChoice::Fixed("".to_owned()))
    } else if *template == "simple".to_owned() {
        Ok(
            TemplateChoice::Fixed(
                "\\documentclass{article}\n\\begin{document}\nHello, World!\n\\end{document}".to_owned(),
            ),
        )
    } else if *template == "article".to_owned() {
        Ok(TemplateChoice::Article)
    } else {
        Err(TemplateError::UnknownTemplate)
    }
}

/// The file a project title is written to.
pub fn tex_file_name(title: &String) -> (r: String)
    ensures
        r@ == title@ + ".tex"@,
{
    title.clone().concat(".tex")
}

/// The file a compiled project is read back from.
pub fn pdf_file_name(title: &String) -> (r: String)
    ensures
        r@ == title@ + ".pdf"@,
{
    title.clone().concat(".pdf")
}

/// The report a failed compilation surfaces: both output streams, named.
pub fn compile_failure_message(stderr: &String, stdout: &String) -> (r: String)
    ensures
        r@ == "stderr: "@ + stderr@ + "\nstdout: "@ + stdout@,
{
    let mut r: String = "stderr: ".to_owned();
    r.append(stderr.as_str());
    r.append("\nstdout: ");
    r.append(stdout.as_str());
    r
}

} // verus!
