//! Fortran keywords.
//!
//! Keywords are not reserved: a parser decides from context whether a name is
//! one.

use crate::text::same_text;
use vstd::prelude::*;

verus! {

/// A Fortran keyword.
#[derive(Debug, Clone, Copy, PartialEq, Eq, Structural)]
pub enum Keyword {
    Program,
    EndProgram,
    Module,
    EndModule,
    Submodule,
    EndSubmodule,
    Subroutine,
    EndSubroutine,
    Function,
    EndFunction,
    BlockData,
    EndBlockData,
    Contains,
    Use,
    Only,
    Import,
    Implicit,
    NoneKeyword,
    Integer,
    Real,
    DoublePrecision,
    Complex,
    Character,
    Logical,
    Type,
    Class,
    Dimension,
    Allocatable,
    Pointer,
    Target,
    Intent,
    In,
    Out,
    InOut,
    Optional,
    Save,
    Parameter,
    Value,
    Volatile,
    Asynchronous,
    Protected,
    Contiguous,
    External,
    Intrinsic,
    Bind,
    Public,
    Private,
    If,
    Then,
    Else,
    ElseIf,
    EndIf,
    Do,
    EndDo,
    While,
    Concurrent,
    Select,
    Case,
    EndSelect,
    Default,
    Where,
    EndWhere,
    Elsewhere,
    Forall,
    EndForall,
    Block,
    EndBlock,
    Associate,
    EndAssociate,
    Critical,
    EndCritical,
    Exit,
    Cycle,
    Stop,
    ErrorStop,
    Return,
    GoTo,
    Call,
    Print,
    Write,
    Read,
    Open,
    Close,
    Inquire,
    Rewind,
    Backspace,
    Endfile,
    Flush,
    Wait,
    Allocate,
    Deallocate,
    Nullify,
    Data,
    Common,
    Equivalence,
    Namelist,
    Sequence,
    Format,
    Pure,
    Impure,
    Elemental,
    Recursive,
    NonRecursive,
    Abstract,
    Interface,
    EndInterface,
    Procedure,
    Generic,
    Operator,
    Assignment,
    Entry,
    Result,
    Enum,
    Enumerator,
    EndEnum,
    End,
}

/// The keyword that a name in lower case spells.
pub open spec fn keyword_of(s: Seq<char>) -> Option<Keyword> {
    if s == "program"@ {
        Some(Keyword::Program)
    } else if s == "endprogram"@ || s == "end program"@ {
        Some(Keyword::EndProgram)
    } else if s == "module"@ {
        Some(Keyword::Module)
    } else if s == "endmodule"@ || s == "end module"@ {
        Some(Keyword::EndModule)
    } else if s == "submodule"@ {
        Some(Keyword::Submodule)
    } else if s == "endsubmodule"@ || s == "end submodule"@ {
        Some(Keyword::EndSubmodule)
    } else if s == "subroutine"@ {
        Some(Keyword::Subroutine)
    } else if s == "endsubroutine"@ || s == "end subroutine"@ {
        Some(Keyword::EndSubroutine)
    } else if s == "function"@ {
        Some(Keyword::Function)
    } else if s == "endfunction"@ || s == "end function"@ {
        Some(Keyword::EndFunction)
    } else if s == "blockdata"@ || s == "block data"@ {
        Some(Keyword::BlockData)
    } else if s == "endblockdata"@ || s == "end block data"@ {
        Some(Keyword::EndBlockData)
    } else if s == "contains"@ {
        Some(Keyword::Contains)
    } else if s == "use"@ {
        Some(Keyword::Use)
    } else if s == "only"@ {
        Some(Keyword::Only)
    } else if s == "import"@ {
        Some(Keyword::Import)
    } else if s == "implicit"@ {
        Some(Keyword::Implicit)
    } else if s == "none"@ {
        Some(Keyword::NoneKeyword)
    } else if s == "integer"@ {
        Some(Keyword::Integer)
    } else if s == "real"@ {
        Some(Keyword::Real)
    } else if s == "doubleprecision"@ || s == "double precision"@ {
        Some(Keyword::DoublePrecision)
    } else if s == "complex"@ {
        Some(Keyword::Complex)
    } else if s == "character"@ {
        Some(Keyword::Character)
    } else if s == "logical"@ {
        Some(Keyword::Logical)
    } else if s == "type"@ {
        Some(Keyword::Type)
    } else if s == "class"@ {
        Some(Keyword::Class)
    } else if s == "dimension"@ {
        Some(Keyword::Dimension)
    } else if s == "allocatable"@ {
        Some(Keyword::Allocatable)
    } else if s == "pointer"@ {
        Some(Keyword::Pointer)
    } else if s == "target"@ {
        Some(Keyword::Target)
    } else if s == "intent"@ {
        Some(Keyword::Intent)
    } else if s == "in"@ {
        Some(Keyword::In)
    } else if s == "out"@ {
        Some(Keyword::Out)
    } else if s == "inout"@ {
        Some(Keyword::InOut)
    } else if s == "optional"@ {
        Some(Keyword::Optional)
    } else if s == "save"@ {
        Some(Keyword::Save)
    } else if s == "parameter"@ {
        Some(Keyword::Parameter)
    } else if s == "value"@ {
        Some(Keyword::Value)
    } else if s == "volatile"@ {
        Some(Keyword::Volatile)
    } else if s == "asynchronous"@ {
        Some(Keyword::Asynchronous)
    } else if s == "protected"@ {
        Some(Keyword::Protected)
    } else if s == "contiguous"@ {
        Some(Keyword::Contiguous)
    } else if s == "external"@ {
        Some(Keyword::External)
    } else if s == "intrinsic"@ {
        Some(Keyword::Intrinsic)
    } else if s == "bind"@ {
        Some(Keyword::Bind)
    } else if s == "public"@ {
        Some(Keyword::Public)
    } else if s == "private"@ {
        Some(Keyword::Private)
    } else if s == "if"@ {
        Some(Keyword::If)
    } else if s == "then"@ {
        Some(Keyword::Then)
    } else if s == "else"@ {
        Some(Keyword::Else)
    } else if s == "elseif"@ || s == "else if"@ {
        Some(Keyword::ElseIf)
    } else if s == "endif"@ || s == "end if"@ {
        Some(Keyword::EndIf)
    } else if s == "do"@ {
        Some(Keyword::Do)
    } else if s == "enddo"@ || s == "end do"@ {
        Some(Keyword::EndDo)
    } else if s == "while"@ {
        Some(Keyword::While)
    } else if s == "concurrent"@ {
        Some(Keyword::Concurrent)
    } else if s == "select"@ {
        Some(Keyword::Select)
    } else if s == "case"@ {
        Some(Keyword::Case)
    } else if s == "endselect"@ || s == "end select"@ {
        Some(Keyword::EndSelect)
    } else if s == "default"@ {
        Some(Keyword::Default)
    } else if s == "where"@ {
        Some(Keyword::Where)
    } else if s == "endwhere"@ || s == "end where"@ {
        Some(Keyword::EndWhere)
    } else if s == "elsewhere"@ {
        Some(Keyword::Elsewhere)
    } else if s == "forall"@ {
        Some(Keyword::Forall)
    } else if s == "endforall"@ || s == "end forall"@ {
        Some(Keyword::EndForall)
    } else if s == "block"@ {
        Some(Keyword::Block)
    } else if s == "endblock"@ || s == "end block"@ {
        Some(Keyword::EndBlock)
    } else if s == "associate"@ {
        Some(Keyword::Associate)
    } else if s == "endassociate"@ || s == "end associate"@ {
        Some(Keyword::EndAssociate)
    } else if s == "critical"@ {
        Some(Keyword::Critical)
    } else if s == "endcritical"@ || s == "end critical"@ {
        Some(Keyword::EndCritical)
    } else if s == "exit"@ {
        Some(Keyword::Exit)
    } else if s == "cycle"@ {
        Some(Keyword::Cycle)
    } else if s == "stop"@ {
        Some(Keyword::Stop)
    } else if s == "error stop"@ {
        Some(Keyword::ErrorStop)
    } else if s == "return"@ {
        Some(Keyword::Return)
    } else if s == "goto"@ || s == "go to"@ {
        Some(Keyword::GoTo)
    } else if s == "call"@ {
        Some(Keyword::Call)
    } else if s == "print"@ {
        Some(Keyword::Print)
    } else if s == "write"@ {
        Some(Keyword::Write)
    } else if s == "read"@ {
        Some(Keyword::Read)
    } else if s == "open"@ {
        Some(Keyword::Open)
    } else if s == "close"@ {
        Some(Keyword::Close)
    } else if s == "inquire"@ {
        Some(Keyword::Inquire)
    } else if s == "rewind"@ {
        Some(Keyword::Rewind)
    } else if s == "backspace"@ {
        Some(Keyword::Backspace)
    } else if s == "endfile"@ {
        Some(Keyword::Endfile)
    } else if s == "flush"@ {
        Some(Keyword::Flush)
    } else if s == "wait"@ {
        Some(Keyword::Wait)
    } else if s == "allocate"@ {
        Some(Keyword::Allocate)
    } else if s == "deallocate"@ {
        Some(Keyword::Deallocate)
    } else if s == "nullify"@ {
        Some(Keyword::Nullify)
    } else if s == "data"@ {
        Some(Keyword::Data)
    } else if s == "common"@ {
        Some(Keyword::Common)
    } else if s == "equivalence"@ {
        Some(Keyword::Equivalence)
    } else if s == "namelist"@ {
        Some(Keyword::Namelist)
    } else if s == "sequence"@ {
        Some(Keyword::Sequence)
    } else if s == "format"@ {
        Some(Keyword::Format)
    } else if s == "pure"@ {
        Some(Keyword::Pure)
    } else if s == "impure"@ {
        Some(Keyword::Impure)
    } else if s == "elemental"@ {
        Some(Keyword::Elemental)
    } else if s == "recursive"@ {
        Some(Keyword::Recursive)
    } else if s == "non_recursive"@ {
        Some(Keyword::NonRecursive)
    } else if s == "abstract"@ {
        Some(Keyword::Abstract)
    } else if s == "interface"@ {
        Some(Keyword::Interface)
    } else if s == "endinterface"@ || s == "end interface"@ {
        Some(Keyword::EndInterface)
    } else if s == "procedure"@ {
        Some(Keyword::Procedure)
    } else if s == "generic"@ {
        Some(Keyword::Generic)
    } else if s == "operator"@ {
        Some(Keyword::Operator)
    } else if s == "assignment"@ {
        Some(Keyword::Assignment)
    } else if s == "entry"@ {
        Some(Keyword::Entry)
    } else if s == "result"@ {
        Some(Keyword::Result)
    } else if s == "enum"@ {
        Some(Keyword::Enum)
    } else if s == "enumerator"@ {
        Some(Keyword::Enumerator)
    } else if s == "endenum"@ || s == "end enum"@ {
        Some(Keyword::EndEnum)
    } else if s == "end"@ {
        Some(Keyword::End)
    } else {
        None
    }
}

/// The keyword that a name in lower case spells.
pub fn lower_keyword(s: &str) -> (r: Option<Keyword>)
    ensures
        r == keyword_of(s@),
{
    if same_text(s, "program") {
        Some(Keyword::Program)
    } else if same_text(s, "endprogram") || same_text(s, "end program") {
        Some(Keyword::EndProgram)
    } else if same_text(s, "module") {
        Some(Keyword::Module)
    } else if same_text(s, "endmodule") || same_text(s, "end module") {
        Some(Keyword::EndModule)
    } else if same_text(s, "submodule") {
        Some(Keyword::Submodule)
    } else if same_text(s, "endsubmodule") || same_text(s, "end submodule") {
        Some(Keyword::EndSubmodule)
    } else if same_text(s, "subroutine") {
        Some(Keyword::Subroutine)
    } else if same_text(s, "endsubroutine") || same_text(s, "end subroutine") {
        Some(Keyword::EndSubroutine)
    } else if same_text(s, "function") {
        Some(Keyword::Function)
    } else if same_text(s, "endfunction") || same_text(s, "end function") {
        Some(Keyword::EndFunction)
    } else if same_text(s, "blockdata") || same_text(s, "block data") {
        Some(Keyword::BlockData)
    } else if same_text(s, "endblockdata") || same_text(s, "end block data") {
        Some(Keyword::EndBlockData)
    } else if same_text(s, "contains") {
        Some(Keyword::Contains)
    } else if same_text(s, "use") {
        Some(Keyword::Use)
    } else if same_text(s, "only") {
        Some(Keyword::Only)
    } else if same_text(s, "import") {
        Some(Keyword::Import)
    } else if same_text(s, "implicit") {
        Some(Keyword::Implicit)
    } else if same_text(s, "none") {
        Some(Keyword::NoneKeyword)
    } else if same_text(s, "integer") {
        Some(Keyword::Integer)
    } else if same_text(s, "real") {
        Some(Keyword::Real)
    } else if same_text(s, "doubleprecision") || same_text(s, "double precision") {
        Some(Keyword::DoublePrecision)
    } else if same_text(s, "complex") {
        Some(Keyword::Complex)
    } else if same_text(s, "character") {
        Some(Keyword::Character)
    } else if same_text(s, "logical") {
        Some(Keyword::Logical)
    } else if same_text(s, "type") {
        Some(Keyword::Type)
    } else if same_text(s, "class") {
        Some(Keyword::Class)
    } else if same_text(s, "dimension") {
        Some(Keyword::Dimension)
    } else if same_text(s, "allocatable") {
        Some(Keyword::Allocatable)
    } else if same_text(s, "pointer") {
        Some(Keyword::Pointer)
    } else if same_text(s, "target") {
        Some(Keyword::Target)
    } else if same_text(s, "intent") {
        Some(Keyword::Intent)
    } else if same_text(s, "in") {
        Some(Keyword::In)
    } else if same_text(s, "out") {
        Some(Keyword::Out)
    } else if same_text(s, "inout") {
        Some(Keyword::InOut)
    } else if same_text(s, "optional") {
        Some(Keyword::Optional)
    } else if same_text(s, "save") {
        Some(Keyword::Save)
    } else if same_text(s, "parameter") {
        Some(Keyword::Parameter)
    } else if same_text(s, "value") {
        Some(Keyword::Value)
    } else if same_text(s, "volatile") {
        Some(Keyword::Volatile)
    } else if same_text(s, "asynchronous") {
        Some(Keyword::Asynchronous)
    } else if same_text(s, "protected") {
        Some(Keyword::Protected)
    } else if same_text(s, "contiguous") {
        Some(Keyword::Contiguous)
    } else if same_text(s, "external") {
        Some(Keyword::External)
    } else if same_text(s, "intrinsic") {
        Some(Keyword::Intrinsic)
    } else if same_text(s, "bind") {
        Some(Keyword::Bind)
    } else if same_text(s, "public") {
        Some(Keyword::Public)
    } else if same_text(s, "private") {
        Some(Keyword::Private)
    } else if same_text(s, "if") {
        Some(Keyword::If)
    } else if same_text(s, "then") {
        Some(Keyword::Then)
    } else if same_text(s, "else") {
        Some(Keyword::Else)
    } else if same_text(s, "elseif") || same_text(s, "else if") {
        Some(Keyword::ElseIf)
    } else if same_text(s, "endif") || same_text(s, "end if") {
        Some(Keyword::EndIf)
    } else if same_text(s, "do") {
        Some(Keyword::Do)
    } else if same_text(s, "enddo") || same_text(s, "end do") {
        Some(Keyword::EndDo)
    } else if same_text(s, "while") {
        Some(Keyword::While)
    } else if same_text(s, "concurrent") {
        Some(Keyword::Concurrent)
    } else if same_text(s, "select") {
        Some(Keyword::Select)
    } else if same_text(s, "case") {
        Some(Keyword::Case)
    } else if same_text(s, "endselect") || same_text(s, "end select") {
        Some(Keyword::EndSelect)
    } else if same_text(s, "default") {
        Some(Keyword::Default)
    } else if same_text(s, "where") {
        Some(Keyword::Where)
    } else if same_text(s, "endwhere") || same_text(s, "end where") {
        Some(Keyword::EndWhere)
    } else if same_text(s, "elsewhere") {
        Some(Keyword::Elsewhere)
    } else if same_text(s, "forall") {
        Some(Keyword::Forall)
    } else if same_text(s, "endforall") || same_text(s, "end forall") {
        Some(Keyword::EndForall)
    } else if same_text(s, "block") {
        Some(Keyword::Block)
    } else if same_text(s, "endblock") || same_text(s, "end block") {
        Some(Keyword::EndBlock)
    } else if same_text(s, "associate") {
        Some(Keyword::Associate)
    } else if same_text(s, "endassociate") || same_text(s, "end associate") {
        Some(Keyword::EndAssociate)
    } else if same_text(s, "critical") {
        Some(Keyword::Critical)
    } else if same_text(s, "endcritical") || same_text(s, "end critical") {
        Some(Keyword::EndCritical)
    } else if same_text(s, "exit") {
        Some(Keyword::Exit)
    } else if same_text(s, "cycle") {
        Some(Keyword::Cycle)
    } else if same_text(s, "stop") {
        Some(Keyword::Stop)
    } else if same_text(s, "error stop") {
        Some(Keyword::ErrorStop)
    } else if same_text(s, "return") {
        Some(Keyword::Return)
    } else if same_text(s, "goto") || same_text(s, "go to") {
        Some(Keyword::GoTo)
    } else if same_text(s, "call") {
        Some(Keyword::Call)
    } else if same_text(s, "print") {
        Some(Keyword::Print)
    } else if same_text(s, "write") {
        Some(Keyword::Write)
    } else if same_text(s, "read") {
        Some(Keyword::Read)
    } else if same_text(s, "open") {
        Some(Keyword::Open)
    } else if same_text(s, "close") {
        Some(Keyword::Close)
    } else if same_text(s, "inquire") {
        Some(Keyword::Inquire)
    } else if same_text(s, "rewind") {
        Some(Keyword::Rewind)
    } else if same_text(s, "backspace") {
        Some(Keyword::Backspace)
    } else if same_text(s, "endfile") {
        Some(Keyword::Endfile)
    } else if same_text(s, "flush") {
        Some(Keyword::Flush)
    } else if same_text(s, "wait") {
        Some(Keyword::Wait)
    } else if same_text(s, "allocate") {
        Some(Keyword::Allocate)
    } else if same_text(s, "deallocate") {
        Some(Keyword::Deallocate)
    } else if same_text(s, "nullify") {
        Some(Keyword::Nullify)
    } else if same_text(s, "data") {
        Some(Keyword::Data)
    } else if same_text(s, "common") {
        Some(Keyword::Common)
    } else if same_text(s, "equivalence") {
        Some(Keyword::Equivalence)
    } else if same_text(s, "namelist") {
        Some(Keyword::Namelist)
    } else if same_text(s, "sequence") {
        Some(Keyword::Sequence)
    } else if same_text(s, "format") {
        Some(Keyword::Format)
    } else if same_text(s, "pure") {
        Some(Keyword::Pure)
    } else if same_text(s, "impure") {
        Some(Keyword::Impure)
    } else if same_text(s, "elemental") {
        Some(Keyword::Elemental)
    } else if same_text(s, "recursive") {
        Some(Keyword::Recursive)
    } else if same_text(s, "non_recursive") {
        Some(Keyword::NonRecursive)
    } else if same_text(s, "abstract") {
        Some(Keyword::Abstract)
    } else if same_text(s, "interface") {
        Some(Keyword::Interface)
    } else if same_text(s, "endinterface") || same_text(s, "end interface") {
        Some(Keyword::EndInterface)
    } else if same_text(s, "procedure") {
        Some(Keyword::Procedure)
    } else if same_text(s, "generic") {
        Some(Keyword::Generic)
    } else if same_text(s, "operator") {
        Some(Keyword::Operator)
    } else if same_text(s, "assignment") {
        Some(Keyword::Assignment)
    } else if same_text(s, "entry") {
        Some(Keyword::Entry)
    } else if same_text(s, "result") {
        Some(Keyword::Result)
    } else if same_text(s, "enum") {
        Some(Keyword::Enum)
    } else if same_text(s, "enumerator") {
        Some(Keyword::Enumerator)
    } else if same_text(s, "endenum") || same_text(s, "end enum") {
        Some(Keyword::EndEnum)
    } else if same_text(s, "end") {
        Some(Keyword::End)
    } else {
        None
    }
}

/// The lower-case form of a text.
pub uninterp spec fn lowercase(s: Seq<char>) -> Seq<char>;

/// The lower-case form of an ASCII character.
pub open spec fn ascii_lower(c: char) -> char {
    if 'A' <= c && c <= 'Z' {
        ((c as u32) + 32) as char
    } else {
        c
    }
}

/// Are all characters of a text ASCII?
pub open spec fn is_ascii_text(s: Seq<char>) -> bool {
    forall|i: int| 0 <= i < s.len() ==> (#[trigger] s[i] as u32) < 128
}

/// `str::to_lowercase`: the result is a function of the text alone, and an
/// ASCII text is lowered character by character.
#[verifier::external_body]
fn to_lowercase(s: &str) -> (r: String)
    ensures
        r@ == lowercase(s@),
        is_ascii_text(s@) ==> r@ == s@.map_values(|c: char| ascii_lower(c)),
{
    s.to_lowercase()
}

/// The keyword that a name spells, whatever its case.
pub fn is_keyword(name: &str) -> (r: Option<Keyword>)
    ensures
        r == keyword_of(lowercase(name@)),
        is_ascii_text(name@) ==> r == keyword_of(name@.map_values(|c: char| ascii_lower(c))),
{
    let lower = to_lowercase(name);
    lower_keyword(lower.as_str())
}

} // verus!
