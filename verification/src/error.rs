use vstd::prelude::*;
use vstd::string::StringExecFns;
use crate::macros::Macro;
use crate::text::{decimal, decimal_string};

verus! {

/// What the interpreter hands back: a value, or the error that stopped it.
pub type LashResult<T> = Result<T, LashError>;

/// An error of the interpreter: its kind and what it says.
#[derive(Debug)]
pub struct LashError {
    error_type: LashErrorType,
    message: String,
}

/// The kinds of error.
#[derive(Debug, Clone, Copy, PartialEq, Eq, Structural)]
pub enum LashErrorType {
    ChurchNumError,
    FileError,
    FormatError,
    MacroArgError,
    SetKeyError,
    SetValueError,
    SyntaxError,
    UnknownMacroError,
    NotFoundError,
    NotSupportedError,
}

impl LashErrorType {
    /// The words that introduce an error of this kind.
    pub open spec fn spec_prefix(self) -> Seq<char> {
        match self {
            LashErrorType::ChurchNumError => "Church Numeral Error"@,
            LashErrorType::FileError => "File Error"@,
            LashErrorType::FormatError => "Format Error"@,
            LashErrorType::MacroArgError => "Macro Argument Error"@,
            LashErrorType::SyntaxError => "Syntax Error"@,
            LashErrorType::SetKeyError => "Set Key Error"@,
            LashErrorType::SetValueError => "Set Value Error"@,
            LashErrorType::UnknownMacroError => "Unknown Macro Error"@,
            LashErrorType::NotFoundError => "Not Found"@,
            LashErrorType::NotSupportedError => "Not supported"@,
        }
    }

    /// The words that introduce an error of this kind.
    pub fn prefix(&self) -> (r: &'static str)
        ensures
            r@ == self.spec_prefix(),
    {
        match self {
            LashErrorType::ChurchNumError => "Church Numeral Error",
            LashErrorType::FileError => "File Error",
            LashErrorType::FormatError => "Format Error",
            LashErrorType::MacroArgError => "Macro Argument Error",
            LashErrorType::SyntaxError => "Syntax Error",
            LashErrorType::SetKeyError => "Set Key Error",
            LashErrorType::SetValueError => "Set Value Error",
            LashErrorType::UnknownMacroError => "Unknown Macro Error",
            LashErrorType::NotFoundError => "Not Found",
            LashErrorType::NotSupportedError => "Not supported",
        }
    }
}

impl Clone for LashError {
    fn clone(&self) -> (r: Self)
        ensures
            r.kind() == self.kind(),
            r.text() == self.text(),
    {
        LashError { error_type: self.error_type, message: self.message.clone() }
    }
}

impl LashError {
    /// The kind of the error.
    pub closed spec fn kind(&self) -> LashErrorType {
        self.error_type
    }

    /// What the error says.
    pub closed spec fn text(&self) -> Seq<char> {
        self.message@
    }

    /// The error as it is shown: the words for its kind, a colon, what it says.
    pub open spec fn shown(&self) -> Seq<char> {
        self.kind().spec_prefix() + ": "@ + self.text()
    }

    /// The kind of the error.
    pub fn error_type(&self) -> (r: LashErrorType)
        ensures
            r == self.kind(),
    {
        self.error_type
    }

    /// What the error says.
    pub fn message(&self) -> (r: &String)
        ensures
            r@ == self.text(),
    {
        &self.message
    }

    /// The error as it is shown.
    pub fn to_string(&self) -> (r: String)
        ensures
            r@ == self.shown(),
    {
        let mut s = String::from_str(self.error_type.prefix());
        s.append(": ");
        s.append(self.message.as_str());
        s
    }

    /// A numeral stands in a term while numerals are switched off.
    pub fn new_church_num_error() -> (r: Self)
        ensures
            r.kind() == LashErrorType::ChurchNumError,
            r.text() == "church numerals disabled"@,
    {
        LashError {
            error_type: LashErrorType::ChurchNumError,
            message: String::from_str("church numerals disabled"),
        }
    }

    /// The file `file` could not be opened; `error` is what the system said of
    /// it, if it said anything.
    pub fn new_file_error(file: &str, error: Option<&str>) -> (r: Self)
        ensures
            r.kind() == LashErrorType::FileError,
            r.text() == "unable to open file '"@ + file@ + "' "@ + match error {
                Some(e) => "("@ + e@ + ")"@,
                None => Seq::empty(),
            },
    {
        let mut message = String::from_str("unable to open file '");
        message.append(file);
        message.append("' ");
        let ghost head = message@;
        match error {
            Some(e) => {
                message.append("(");
                message.append(e);
                message.append(")");
                assert(message@ =~= head + ("("@ + e@ + ")"@));
            },
            None => {
                assert(message@ =~= head + Seq::<char>::empty());
            },
        }
        LashError { error_type: LashErrorType::FileError, message }
    }

    /// The file `file` was not found.
    pub fn new_not_found_error(file: &str) -> (r: Self)
        ensures
            r.kind() == LashErrorType::NotFoundError,
            r.text() == file@,
    {
        LashError { error_type: LashErrorType::NotFoundError, message: String::from_str(file) }
    }

    /// The macro `m` takes `args_expected` arguments and was given
    /// `args_given`.
    pub fn new_macro_arg_error(m: Macro, args_expected: usize, args_given: usize) -> (r: Self)
        ensures
            r.kind() == LashErrorType::MacroArgError,
            r.text() == "macro "@ + m.spec_name() + " expects "@ + decimal(args_expected as nat)
                + " arguments, but "@ + decimal(args_given as nat) + " were given"@,
    {
        let mut message = String::from_str("macro ");
        message.append(m.name());
        message.append(" expects ");
        message.append(decimal_string(args_expected).as_str());
        message.append(" arguments, but ");
        message.append(decimal_string(args_given).as_str());
        message.append(" were given");
        LashError { error_type: LashErrorType::MacroArgError, message }
    }

    /// The text could not be read as a statement; `description` says where
    /// and why.
    pub fn new_syntax_error(description: &str) -> (r: Self)
        ensures
            r.kind() == LashErrorType::SyntaxError,
            r.text() == "\n"@ + description@,
    {
        let mut message = String::from_str("\n");
        message.append(description);
        LashError { error_type: LashErrorType::SyntaxError, message }
    }

    /// There is no option named `key`.
    pub fn new_set_key_error(key: &str) -> (r: Self)
        ensures
            r.kind() == LashErrorType::SetKeyError,
            r.text() == "unknown key '"@ + key@ + "'"@,
    {
        let mut message = String::from_str("unknown key '");
        message.append(key);
        message.append("'");
        LashError { error_type: LashErrorType::SetKeyError, message }
    }

    /// The option does not take the value `value`.
    pub fn new_set_value_error(value: &str) -> (r: Self)
        ensures
            r.kind() == LashErrorType::SetValueError,
            r.text() == "unknown value '"@ + value@ + "'"@,
    {
        let mut message = String::from_str("unknown value '");
        message.append(value);
        message.append("'");
        LashError { error_type: LashErrorType::SetValueError, message }
    }

    /// No macro, or more than one, has a name that begins with `name`.
    pub fn new_unknown_macro_error(name: &str) -> (r: Self)
        ensures
            r.kind() == LashErrorType::UnknownMacroError,
            r.text() == "unknown macro '"@ + name@ + "'"@,
    {
        let mut message = String::from_str("unknown macro '");
        message.append(name);
        message.append("'");
        LashError { error_type: LashErrorType::UnknownMacroError, message }
    }

    /// Something was asked for that cannot be done; `message` says what.
    pub fn new_not_supported_error(message: String) -> (r: Self)
        ensures
            r.kind() == LashErrorType::NotSupportedError,
            r.text() == message@,
    {
        LashError { error_type: LashErrorType::NotSupportedError, message }
    }
}

} // verus!
