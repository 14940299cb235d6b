//! How keywords are spelled.

use crate::lexer::keyword::{keyword_of, Keyword};
use vstd::prelude::*;

verus! {

/// The spellings of a keyword. One of two words is also written as one.
pub open spec fn spellings(k: Keyword) -> (Seq<char>, Seq<char>) {
    match k {
        Keyword::Program => ("program"@, "program"@),
        Keyword::EndProgram => ("endprogram"@, "end program"@),
        Keyword::Module => ("module"@, "module"@),
        Keyword::EndModule => ("endmodule"@, "end module"@),
        Keyword::Submodule => ("submodule"@, "submodule"@),
        Keyword::EndSubmodule => ("endsubmodule"@, "end submodule"@),
        Keyword::Subroutine => ("subroutine"@, "subroutine"@),
        Keyword::EndSubroutine => ("endsubroutine"@, "end subroutine"@),
        Keyword::Function => ("function"@, "function"@),
        Keyword::EndFunction => ("endfunction"@, "end function"@),
        Keyword::BlockData => ("blockdata"@, "block data"@),
        Keyword::EndBlockData => ("endblockdata"@, "end block data"@),
        Keyword::Contains => ("contains"@, "contains"@),
        Keyword::Use => ("use"@, "use"@),
        Keyword::Only => ("only"@, "only"@),
        Keyword::Import => ("import"@, "import"@),
        Keyword::Implicit => ("implicit"@, "implicit"@),
        Keyword::NoneKeyword => ("none"@, "none"@),
        Keyword::Integer => ("integer"@, "integer"@),
        Keyword::Real => ("real"@, "real"@),
        Keyword::DoublePrecision => ("doubleprecision"@, "double precision"@),
        Keyword::Complex => ("complex"@, "complex"@),
        Keyword::Character => ("character"@, "character"@),
        Keyword::Logical => ("logical"@, "logical"@),
        Keyword::Type => ("type"@, "type"@),
        Keyword::Class => ("class"@, "class"@),
        Keyword::Dimension => ("dimension"@, "dimension"@),
        Keyword::Allocatable => ("allocatable"@, "allocatable"@),
        Keyword::Pointer => ("pointer"@, "pointer"@),
        Keyword::Target => ("target"@, "target"@),
        Keyword::Intent => ("intent"@, "intent"@),
        Keyword::In => ("in"@, "in"@),
        Keyword::Out => ("out"@, "out"@),
        Keyword::InOut => ("inout"@, "inout"@),
        Keyword::Optional => ("optional"@, "optional"@),
        Keyword::Save => ("save"@, "save"@),
        Keyword::Parameter => ("parameter"@, "parameter"@),
        Keyword::Value => ("value"@, "value"@),
        Keyword::Volatile => ("volatile"@, "volatile"@),
        Keyword::Asynchronous => ("asynchronous"@, "asynchronous"@),
        Keyword::Protected => ("protected"@, "protected"@),
        Keyword::Contiguous => ("contiguous"@, "contiguous"@),
        Keyword::External => ("external"@, "external"@),
        Keyword::Intrinsic => ("intrinsic"@, "intrinsic"@),
        Keyword::Bind => ("bind"@, "bind"@),
        Keyword::Public => ("public"@, "public"@),
        Keyword::Private => ("private"@, "private"@),
        Keyword::If => ("if"@, "if"@),
        Keyword::Then => ("then"@, "then"@),
        Keyword::Else => ("else"@, "else"@),
        Keyword::ElseIf => ("elseif"@, "else if"@),
        Keyword::EndIf => ("endif"@, "end if"@),
        Keyword::Do => ("do"@, "do"@),
        Keyword::EndDo => ("enddo"@, "end do"@),
        Keyword::While => ("while"@, "while"@),
        Keyword::Concurrent => ("concurrent"@, "concurrent"@),
        Keyword::Select => ("select"@, "select"@),
        Keyword::Case => ("case"@, "case"@),
        Keyword::EndSelect => ("endselect"@, "end select"@),
        Keyword::Default => ("default"@, "default"@),
        Keyword::Where => ("where"@, "where"@),
        Keyword::EndWhere => ("endwhere"@, "end where"@),
        Keyword::Elsewhere => ("elsewhere"@, "elsewhere"@),
        Keyword::Forall => ("forall"@, "forall"@),
        Keyword::EndForall => ("endforall"@, "end forall"@),
        Keyword::Block => ("block"@, "block"@),
        Keyword::EndBlock => ("endblock"@, "end block"@),
        Keyword::Associate => ("associate"@, "associate"@),
        Keyword::EndAssociate => ("endassociate"@, "end associate"@),
        Keyword::Critical => ("critical"@, "critical"@),
        Keyword::EndCritical => ("endcritical"@, "end critical"@),
        Keyword::Exit => ("exit"@, "exit"@),
        Keyword::Cycle => ("cycle"@, "cycle"@),
        Keyword::Stop => ("stop"@, "stop"@),
        Keyword::ErrorStop => ("error stop"@, "error stop"@),
        Keyword::Return => ("return"@, "return"@),
        Keyword::GoTo => ("goto"@, "go to"@),
        Keyword::Call => ("call"@, "call"@),
        Keyword::Print => ("print"@, "print"@),
        Keyword::Write => ("write"@, "write"@),
        Keyword::Read => ("read"@, "read"@),
        Keyword::Open => ("open"@, "open"@),
        Keyword::Close => ("close"@, "close"@),
        Keyword::Inquire => ("inquire"@, "inquire"@),
        Keyword::Rewind => ("rewind"@, "rewind"@),
        Keyword::Backspace => ("backspace"@, "backspace"@),
        Keyword::Endfile => ("endfile"@, "endfile"@),
        Keyword::Flush => ("flush"@, "flush"@),
        Keyword::Wait => ("wait"@, "wait"@),
        Keyword::Allocate => ("allocate"@, "allocate"@),
        Keyword::Deallocate => ("deallocate"@, "deallocate"@),
        Keyword::Nullify => ("nullify"@, "nullify"@),
        Keyword::Data => ("data"@, "data"@),
        Keyword::Common => ("common"@, "common"@),
        Keyword::Equivalence => ("equivalence"@, "equivalence"@),
        Keyword::Namelist => ("namelist"@, "namelist"@),
        Keyword::Sequence => ("sequence"@, "sequence"@),
        Keyword::Format => ("format"@, "format"@),
        Keyword::Pure => ("pure"@, "pure"@),
        Keyword::Impure => ("impure"@, "impure"@),
        Keyword::Elemental => ("elemental"@, "elemental"@),
        Keyword::Recursive => ("recursive"@, "recursive"@),
        Keyword::NonRecursive => ("non_recursive"@, "non_recursive"@),
        Keyword::Abstract => ("abstract"@, "abstract"@),
        Keyword::Interface => ("interface"@, "interface"@),
        Keyword::EndInterface => ("endinterface"@, "end interface"@),
        Keyword::Procedure => ("procedure"@, "procedure"@),
        Keyword::Generic => ("generic"@, "generic"@),
        Keyword::Operator => ("operator"@, "operator"@),
        Keyword::Assignment => ("assignment"@, "assignment"@),
        Keyword::Entry => ("entry"@, "entry"@),
        Keyword::Result => ("result"@, "result"@),
        Keyword::Enum => ("enum"@, "enum"@),
        Keyword::Enumerator => ("enumerator"@, "enumerator"@),
        Keyword::EndEnum => ("endenum"@, "end enum"@),
        Keyword::End => ("end"@, "end"@),
    }
}

/// A name in lower case is a keyword exactly where it spells one, and then it is
/// the keyword that it spells.
#[verifier::rlimit(60)]
pub proof fn keywords_are_spelled_by_their_names(s: Seq<char>, k: Keyword)
    ensures
        keyword_of(s) == Some(k) ==> s == spellings(k).0 || s == spellings(k).1,
        s == spellings(k).0 || s == spellings(k).1 ==> keyword_of(s) is Some,
{
}

} // verus!
