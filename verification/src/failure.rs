//! Error classes: what a consumer declares of an error decides how it is
//! retried.

use vstd::prelude::*;

verus! {

/// The declared class of an error.
#[derive(Clone, Copy, Debug, PartialEq, Eq, Structural)]
pub enum ErrorClass {
    /// An infrastructure blip: wait it out, up to a ceiling.
    Transient,
    /// A deterministic failure: retrying cannot help.
    Poison,
    /// The operation failed meaningfully: bounded attempts.
    Domain,
}

/// What is recorded when a trigger is parked.
#[derive(Clone, Copy, Debug, PartialEq, Eq, Structural)]
pub enum FailureClass {
    /// A transient error outlived the ceiling.
    TransientExhausted,
    Poison,
    /// A domain error used up its attempts.
    Domain,
    /// An error that was never classified used up its attempts.
    Unclassified,
}

impl FailureClass {
    /// The wire label of a class.
    pub open spec fn label(self) -> Seq<char> {
        match self {
            FailureClass::TransientExhausted => "transient_exhausted"@,
            FailureClass::Poison => "poison"@,
            FailureClass::Domain => "domain"@,
            FailureClass::Unclassified => "unclassified"@,
        }
    }

    /// The wire label, as written into terminal-failure facts.
    pub fn as_str(self) -> (label: &'static str)
        ensures
            label@ == self.label(),
    {
        match self {
            FailureClass::TransientExhausted => "transient_exhausted",
            FailureClass::Poison => "poison",
            FailureClass::Domain => "domain",
            FailureClass::Unclassified => "unclassified",
        }
    }
}

/// An error with its causes.
#[derive(Debug)]
pub enum Error {
    /// A plain message.
    Message(String),
    /// A message put in front of an error.
    Context { context: String, source: Box<Error> },
    /// An error whose class was declared.
    Classified(ClassifiedError),
}

/// Whether `e` is a plain error with a text.
pub open spec fn is_message(e: Error, text: Seq<char>) -> bool {
    e matches Error::Message(m) && m@ == text
}

/// An error together with its declared class.
#[derive(Debug)]
pub struct ClassifiedError {
    pub class: ErrorClass,
    pub source: Box<Error>,
}

/// One link of an error chain: what it displays, and the class it declares.
pub struct Link {
    pub display: Seq<char>,
    pub class: Option<ErrorClass>,
}

impl Error {
    /// What the error displays: its outermost message. A classification
    /// displays what it classifies.
    pub open spec fn display(self) -> Seq<char>
        decreases self,
    {
        match self {
            Error::Message(message) => message@,
            Error::Context { context, .. } => context@,
            Error::Classified(c) => c.source.display(),
        }
    }

    /// The links of the chain, outermost first.
    pub open spec fn chain(self) -> Seq<Link>
        decreases self,
    {
        match self {
            Error::Message(message) => seq![Link { display: message@, class: None }],
            Error::Context { context, source } => seq![Link { display: context@, class: None }]
                + source.chain(),
            Error::Classified(c) => seq![
                Link { display: c.source.display(), class: Some(c.class) },
            ] + c.source.chain(),
        }
    }

    /// An error of one message.
    pub fn msg(message: &str) -> (e: Error)
        ensures
            e matches Error::Message(m) && m@ == message@,
    {
        Error::Message(message.to_owned())
    }

    /// Puts `context` in front of the error.
    pub fn context(self, context: &str) -> (e: Error)
        ensures
            e.chain() == seq![Link { display: context@, class: None }] + self.chain(),
            e.display() == context@,
    {
        Error::Context { context: context.to_owned(), source: Box::new(self) }
    }

    /// The outermost message.
    pub fn to_text(&self) -> (text: String)
        ensures
            text@ == self.display(),
        decreases self,
    {
        match self {
            Error::Message(message) => message.clone(),
            Error::Context { context, .. } => context.clone(),
            Error::Classified(c) => c.source.to_text(),
        }
    }

    /// Every message of the chain, outermost first, joined by `": "`.
    pub fn to_chain_text(&self) -> (text: String)
        ensures
            text@ == joined(self.chain()),
        decreases self,
    {
        match self {
            Error::Message(message) => {
                proof {
                    let chain = self.chain();
                    assert(chain.drop_first() =~= Seq::empty());
                }
                message.clone()
            },
            Error::Context { context, source } => {
                let mut text = context.clone();
                text.append(": ");
                text.append(source.to_chain_text().as_str());
                proof {
                    assert(self.chain().drop_first() =~= source.chain());
                    lemma_chain_nonempty(**source);
                }
                text
            },
            Error::Classified(c) => {
                let mut text = c.source.to_text();
                text.append(": ");
                text.append(c.source.to_chain_text().as_str());
                proof {
                    assert(self.chain().drop_first() =~= c.source.chain());
                    lemma_chain_nonempty(*c.source);
                }
                text
            },
        }
    }
}

proof fn lemma_chain_nonempty(e: Error)
    ensures
        e.chain().len() > 0,
{
}

/// The messages of a chain, joined by `": "`.
pub open spec fn joined(chain: Seq<Link>) -> Seq<char>
    decreases chain.len(),
{
    if chain.len() == 0 {
        Seq::empty()
    } else if chain.len() == 1 {
        chain[0].display
    } else {
        chain[0].display + ": "@ + joined(chain.drop_first())
    }
}

/// The outermost class that a chain declares.
pub open spec fn outermost_class(chain: Seq<Link>) -> Option<ErrorClass>
    decreases chain.len(),
{
    if chain.len() == 0 {
        None
    } else {
        match chain[0].class {
            Some(class) => Some(class),
            None => outermost_class(chain.drop_first()),
        }
    }
}

/// Declares an error transient.
pub fn transient(e: Error) -> (classified: Error)
    ensures
        classified.chain() == seq![
            Link { display: e.display(), class: Some(ErrorClass::Transient) },
        ] + e.chain(),
{
    Error::Classified(ClassifiedError { class: ErrorClass::Transient, source: Box::new(e) })
}

/// Declares an error poison.
pub fn poison(e: Error) -> (classified: Error)
    ensures
        classified.chain() == seq![
            Link { display: e.display(), class: Some(ErrorClass::Poison) },
        ] + e.chain(),
{
    Error::Classified(ClassifiedError { class: ErrorClass::Poison, source: Box::new(e) })
}

/// Declares an error a domain failure.
pub fn domain(e: Error) -> (classified: Error)
    ensures
        classified.chain() == seq![
            Link { display: e.display(), class: Some(ErrorClass::Domain) },
        ] + e.chain(),
{
    Error::Classified(ClassifiedError { class: ErrorClass::Domain, source: Box::new(e) })
}

/// The outermost declared class of an error; `None` where none was declared.
pub fn classify(e: &Error) -> (class: Option<ErrorClass>)
    ensures
        class == outermost_class(e.chain()),
    decreases e,
{
    match e {
        Error::Message(_) => {
            assert(e.chain().drop_first() =~= Seq::empty());
            None
        },
        Error::Context { source, .. } => {
            assert(e.chain().drop_first() =~= source.chain());
            classify(source)
        },
        Error::Classified(c) => Some(c.class),
    }
}

/// A class survives any context put in front of it.
pub proof fn law_class_survives_context(chain: Seq<Link>, context: Seq<char>)
    ensures
        outermost_class(seq![Link { display: context, class: None }] + chain) == outermost_class(
            chain,
        ),
{
    let wrapped = seq![Link { display: context, class: None }] + chain;
    assert(wrapped.drop_first() =~= chain);
}

/// Classifying again overrides what was declared before.
pub proof fn law_outermost_class_wins(chain: Seq<Link>, display: Seq<char>, class: ErrorClass)
    ensures
        outermost_class(seq![Link { display, class: Some(class) }] + chain) == Some(class),
{
}

/// A chain without a declared class is unclassified.
pub proof fn law_plain_chain_is_unclassified(chain: Seq<Link>)
    requires
        forall|i: int| 0 <= i < chain.len() ==> (#[trigger] chain[i]).class is None,
    ensures
        outermost_class(chain) is None,
    decreases chain.len(),
{
    if chain.len() > 0 {
        let rest = chain.drop_first();
        assert forall|i: int| 0 <= i < rest.len() implies (#[trigger] rest[i]).class is None by {
            assert(rest[i] == chain[i + 1]);
        }
        law_plain_chain_is_unclassified(rest);
    }
}

/// Different classes have different wire labels.
pub proof fn law_labels_are_distinct(a: FailureClass, b: FailureClass)
    requires
        a.label() == b.label(),
    ensures
        a == b,
{
    reveal_strlit("transient_exhausted");
    reveal_strlit("poison");
    reveal_strlit("domain");
    reveal_strlit("unclassified");
    assert("transient_exhausted"@.len() == 19);
    assert("unclassified"@.len() == 12);
    assert("poison"@.len() == 6 && "poison"@[0] == 'p');
    assert("domain"@.len() == 6 && "domain"@[0] == 'd');
}

/// An error is of the class that it was declared to be last, whatever it was
/// before, and through any context put in front of it; context on its own
/// classifies nothing.
pub proof fn law_errors_are_what_was_declared(
    e: Error,
    context: &str,
    own: Option<ErrorClass>,
    as_transient: Error,
    as_poison: Error,
    as_domain: Error,
    wrapped: Error,
    class_transient: Option<ErrorClass>,
    class_poison: Option<ErrorClass>,
    class_domain: Option<ErrorClass>,
    class_wrapped: Option<ErrorClass>,
)
    requires
        call_ensures(classify, (&e,), own),
        call_ensures(transient, (e,), as_transient),
        call_ensures(poison, (e,), as_poison),
        call_ensures(domain, (e,), as_domain),
        call_ensures(Error::context, (e, context), wrapped),
        call_ensures(classify, (&as_transient,), class_transient),
        call_ensures(classify, (&as_poison,), class_poison),
        call_ensures(classify, (&as_domain,), class_domain),
        call_ensures(classify, (&wrapped,), class_wrapped),
    ensures
        class_transient matches Some(c) && c is Transient,
        class_poison matches Some(c) && c is Poison,
        class_domain matches Some(c) && c is Domain,
        class_wrapped == own,
        e is Message ==> own is None,
        e matches Error::Classified(c) ==> own == Some(c.class),
{
    law_class_survives_context(e.chain(), context@);
    reveal_with_fuel(outermost_class, 2);
    if e is Message {
        assert(e.chain().drop_first() =~= Seq::<Link>::empty());
    }
}

/// Classifying an error does not change what it says; context in front of it
/// does, and the whole chain still tells what was said before.
pub proof fn law_words_survive(
    e: Error,
    context: &str,
    wrapped: Error,
    classified: Error,
    text: String,
    wrapped_text: String,
    classified_text: String,
    all: String,
    wrapped_all: String,
)
    requires
        call_ensures(Error::context, (e, context), wrapped),
        call_ensures(transient, (e,), classified) || call_ensures(poison, (e,), classified)
            || call_ensures(domain, (e,), classified),
        call_ensures(Error::to_text, (&e,), text),
        call_ensures(Error::to_text, (&wrapped,), wrapped_text),
        call_ensures(Error::to_text, (&classified,), classified_text),
        call_ensures(Error::to_chain_text, (&e,), all),
        call_ensures(Error::to_chain_text, (&wrapped,), wrapped_all),
    ensures
        classified_text@ == text@,
        wrapped_text@ == context@,
        wrapped_all@ == context@ + ": "@ + all@,
        e matches Error::Message(m) ==> text@ == m@ && all@ == m@,
{
    lemma_chain_nonempty(e);
    lemma_chain_display(e);
    lemma_chain_display(classified);
    let chain = wrapped.chain();
    assert(chain.drop_first() =~= e.chain());
    assert(chain.len() > 1);
    if let Error::Message(m) = e {
        assert(e.chain().len() == 1);
    }
}

proof fn lemma_chain_display(e: Error)
    ensures
        e.chain().len() > 0,
        e.chain()[0].display == e.display(),
{
}

/// The words by which a class is known outside.
pub proof fn law_labels_on_the_wire(class: FailureClass, label: &'static str)
    requires
        call_ensures(FailureClass::as_str, (class,), label),
    ensures
        class is TransientExhausted ==> label@ == "transient_exhausted"@,
        class is Poison ==> label@ == "poison"@,
        class is Domain ==> label@ == "domain"@,
        class is Unclassified ==> label@ == "unclassified"@,
{
}

} // verus!
