//! The code generator for ARM64.

use crate::assembly::{AssemblyWriter, CodegenError, RegisterList, SupportedArchitectures};
use crate::ast::{binding_power, lemma_parse_tree, parse_spec, ASTNode};
use crate::scan::{decimal_value, lemma_decimal_value_push, Token, TokenError};
use vstd::prelude::*;
use vstd::string::*;

verus! {

/// The registers of a full pool, from the bottom of the stack: the first
/// register taken is `R0`.
pub open spec fn full_pool() -> Seq<RegisterList> {
    seq![RegisterList::R4, RegisterList::R3, RegisterList::R2, RegisterList::R1, RegisterList::R0]
}

/// The name of a register in assembly text.
pub open spec fn register_name(register: RegisterList) -> Seq<char> {
    match register {
        RegisterList::R0 => "x0"@,
        RegisterList::R1 => "x1"@,
        RegisterList::R2 => "x2"@,
        RegisterList::R3 => "x3"@,
        RegisterList::R4 => "x4"@,
    }
}

/// The character of a decimal digit.
pub open spec fn digit_char(digit: nat) -> char
    recommends
        digit < 10,
{
    ('0' as u32 + digit) as char
}

/// A natural number in decimal digits, without leading zeros.
pub open spec fn digits_text(n: nat) -> Seq<char>
    decreases n,
{
    if n < 10 {
        seq![digit_char(n)]
    } else {
        digits_text(n / 10).push(digit_char(n % 10))
    }
}

/// An integer in decimal digits, with a minus sign in front of a negative
/// one.
pub open spec fn decimal_text(n: int) -> Seq<char> {
    if n < 0 {
        seq!['-'] + digits_text((-n) as nat)
    } else {
        digits_text(n as nat)
    }
}

/// The digits that are written for a number denote that number: the
/// literal in a load line scans back to the value that was loaded.
pub proof fn lemma_digits_text_value(n: nat)
    ensures
        decimal_value(digits_text(n)) == n,
    decreases n,
{
    if n < 10 {
        assert(digits_text(n) =~= Seq::<char>::empty().push(digit_char(n)));
        lemma_decimal_value_push(Seq::empty(), digit_char(n));
    } else {
        lemma_digits_text_value(n / 10);
        lemma_decimal_value_push(digits_text(n / 10), digit_char(n % 10));
    }
}

/// The line that loads the number `value` into `register`.
pub open spec fn load_line(register: RegisterList, value: i32) -> Seq<char> {
    "\tmov "@ + register_name(register) + ", #"@ + decimal_text(value as int) + "\t// "@
        + register_name(register) + "="@ + decimal_text(value as int)
}

/// The instruction that stands for an operator; the empty text for a token
/// that is none.
pub open spec fn mnemonic(operation: Token) -> Seq<char> {
    match operation {
        Token::PLUS => "add"@,
        Token::MINUS => "sub"@,
        Token::ASTERISK => "mul"@,
        Token::SLASH => "udiv"@,
        _ => ""@,
    }
}

/// The line that applies the instruction `name` to `left` and `right` and
/// puts the result into `target`.
pub open spec fn operation_line(
    name: Seq<char>,
    target: RegisterList,
    left: RegisterList,
    right: RegisterList,
) -> Seq<char> {
    "    "@ + name + " "@ + register_name(target) + ", "@ + register_name(left) + ", "@
        + register_name(right)
}

/// The lines that every program starts with.
pub open spec fn prologue() -> Seq<Seq<char>> {
    seq![
        "// Auto-generated ARM64 assembly"@,
        ".arch arm64"@,
        ".text"@,
        ".global _main"@,
        ".align 2"@,
        ""@,
        "_main:"@,
    ]
}

/// The lines that report the value of `register`: a comment that names the
/// register, and a write to the standard output.
pub open spec fn print_block(register: RegisterList) -> Seq<Seq<char>> {
    seq![
        "    // Print register value ("@ + register_name(register) + ")"@,
        "    mov x0, #1           // stdout"@,
        "    mov x16, #4          // write syscall"@,
        "    svc #0x80"@,
    ]
}

/// The lines that every program ends with: they leave the process with the
/// status zero.
pub open spec fn epilogue() -> Seq<Seq<char>> {
    seq![
        ""@,
        "    // Exit program"@,
        "    mov x0, #0           // Exit status 0"@,
        "    mov x16, #1          // Exit syscall"@,
        "    svc #0x80            // Make system call"@,
    ]
}

/// The text of one decimal digit.
fn digit_str(digit: u32) -> (text: &'static str)
    requires
        digit < 10,
    ensures
        text@ == seq![digit_char(digit as nat)],
{
    proof {
        reveal_strlit("0");
        reveal_strlit("1");
        reveal_strlit("2");
        reveal_strlit("3");
        reveal_strlit("4");
        reveal_strlit("5");
        reveal_strlit("6");
        reveal_strlit("7");
        reveal_strlit("8");
        reveal_strlit("9");
    }
    let text = match digit {
        0 => "0",
        1 => "1",
        2 => "2",
        3 => "3",
        4 => "4",
        5 => "5",
        6 => "6",
        7 => "7",
        8 => "8",
        _ => "9",
    };
    assert(text@ =~= seq![digit_char(digit as nat)]);
    text
}

/// The decimal digits of `n`.
fn digits_string(n: u32) -> (text: String)
    ensures
        text@ == digits_text(n as nat),
    decreases n,
{
    if n < 10 {
        String::from_str(digit_str(n))
    } else {
        let mut text = digits_string(n / 10);
        text.append(digit_str(n % 10));
        text
    }
}

/// The decimal text of `value`.
pub fn decimal_string(value: i32) -> (text: String)
    ensures
        text@ == decimal_text(value as int),
{
    if value < 0 {
        proof {
            reveal_strlit("-");
        }
        let magnitude: u32 = (-(value as i64)) as u32;
        let digits = digits_string(magnitude);
        let mut text = String::from_str("-");
        text.append(digits.as_str());
        assert(text@ =~= seq!['-'] + digits@);
        text
    } else {
        digits_string(value as u32)
    }
}

/// What generating code for a tree comes to: the lines that were emitted,
/// the pool that is left, and the register that holds the value, or the
/// error that ended it.
pub struct Emission {
    pub lines: Seq<Seq<char>>,
    pub pool: Seq<RegisterList>,
    pub result: Result<RegisterList, CodegenError>,
}

/// Taking the top register of the pool for a value: the lines `before` and
/// the one line that puts the value there, or `RegisterExhausted` and nothing
/// more where the pool is empty. The registers in `freed` go back to the
/// pool once the register was taken.
pub open spec fn take_and_emit(
    before: Seq<Seq<char>>,
    pool: Seq<RegisterList>,
    line: Seq<char>,
    freed: Seq<RegisterList>,
) -> Emission {
    if pool.len() == 0 {
        Emission { lines: before, pool, result: Err(CodegenError::RegisterExhausted) }
    } else {
        Emission {
            lines: before.push(line),
            pool: pool.drop_last() + freed,
            result: Ok(pool.last()),
        }
    }
}

/// The code for a tree, generated with the registers of `pool`.
///
/// An integer is loaded into a register taken from the pool. For an operator
/// the code of the left operand comes first, then that of the right operand,
/// then the operator's instruction, which puts its result into a register
/// taken from the pool; after it the two operands' registers go back to the
/// pool, the left one first. The first error ends everything; the lines
/// emitted up to it stay. A token that is neither an integer nor an operator
/// is an `UnsupportedOperation`, and so is an operator that lacks an operand.
pub open spec fn emit(node: ASTNode, pool: Seq<RegisterList>) -> Emission
    decreases node,
{
    match (node.operation, node.left, node.right) {
        (Token::INT(n), _, _) => take_and_emit(
            Seq::empty(),
            pool,
            load_line(pool.last(), n),
            Seq::empty(),
        ),
        (Token::PLUS, Some(l), Some(r))
        | (Token::MINUS, Some(l), Some(r))
        | (Token::ASTERISK, Some(l), Some(r))
        | (Token::SLASH, Some(l), Some(r)) => {
            let left = emit(*l, pool);
            match left.result {
                Err(_) => left,
                Ok(left_register) => {
                    let right = emit(*r, left.pool);
                    match right.result {
                        Err(_) => Emission {
                            lines: left.lines + right.lines,
                            pool: right.pool,
                            result: right.result,
                        },
                        Ok(right_register) => take_and_emit(
                            left.lines + right.lines,
                            right.pool,
                            operation_line(
                                mnemonic(node.operation),
                                right.pool.last(),
                                left_register,
                                right_register,
                            ),
                            seq![left_register, right_register],
                        ),
                    }
                },
            }
        },
        _ => Emission {
            lines: Seq::empty(),
            pool,
            result: Err(CodegenError::UnsupportedOperation),
        },
    }
}

/// Code that was generated without an error took one register from the pool
/// for good, the one that holds the value, and no other: with that register
/// given back the pool holds the registers that it held before, though maybe
/// in another order.
pub proof fn lemma_emit_keeps_registers(node: ASTNode, pool: Seq<RegisterList>)
    requires
        emit(node, pool).result is Ok,
    ensures
        emit(node, pool).pool.len() + 1 == pool.len(),
        emit(node, pool).pool.push(emit(node, pool).result->Ok_0).to_multiset()
            == pool.to_multiset(),
    decreases node,
{
    broadcast use vstd::seq_lib::to_multiset_build;

    if node.operation is INT {
        assert(pool.drop_last() + Seq::<RegisterList>::empty() =~= pool.drop_last());
        assert(pool.drop_last().push(pool.last()) =~= pool);
    } else {
        let left = emit(*node.left->Some_0, pool);
        let right = emit(*node.right->Some_0, left.pool);
        lemma_emit_keeps_registers(*node.left->Some_0, pool);
        lemma_emit_keeps_registers(*node.right->Some_0, left.pool);
        let l = left.result->Ok_0;
        let r = right.result->Ok_0;
        let target = right.pool.last();
        let rest = right.pool.drop_last();
        assert(rest.push(target) =~= right.pool);
        assert(rest + seq![l, r] =~= rest.push(l).push(r));
        assert(rest.to_multiset().insert(l).insert(r).insert(target) =~= rest.to_multiset().insert(
            target,
        ).insert(r).insert(l));
    }
}

/// The number of registers that the code of a tree needs in the pool: one
/// for an integer, and for an operator three, or what the left operand needs,
/// or one more than the right operand needs, whichever is most.
pub open spec fn registers_needed(node: ASTNode) -> nat
    decreases node,
{
    match (node.left, node.right) {
        (Some(l), Some(r)) => {
            let left = registers_needed(*l);
            let right = registers_needed(*r) + 1;
            if left >= right && left >= 3 {
                left
            } else if right >= 3 {
                right
            } else {
                3
            }
        },
        _ => 1,
    }
}

/// Code for a well-formed tree is generated without an error if and only if
/// the pool holds as many registers as the tree needs. The one error that
/// can come up is `RegisterExhausted`.
pub proof fn lemma_emit_succeeds_iff_enough_registers(node: ASTNode, pool: Seq<RegisterList>)
    requires
        node.wf(),
    ensures
        emit(node, pool).result is Ok <==> registers_needed(node) <= pool.len(),
        emit(node, pool).result is Err ==> emit(node, pool).result == Err::<
            RegisterList,
            CodegenError,
        >(CodegenError::RegisterExhausted),
    decreases node,
{
    if node.left is Some {
        let left = emit(*node.left->Some_0, pool);
        lemma_emit_succeeds_iff_enough_registers(*node.left->Some_0, pool);
        if left.result is Ok {
            lemma_emit_keeps_registers(*node.left->Some_0, pool);
            let right = emit(*node.right->Some_0, left.pool);
            lemma_emit_succeeds_iff_enough_registers(*node.right->Some_0, left.pool);
            if right.result is Ok {
                lemma_emit_keeps_registers(*node.right->Some_0, left.pool);
            }
        }
    }
}

/// A well-formed tree that respects precedence needs four registers at
/// most: three at most if its root is a multiplication or a division, and
/// one if it is an integer. For the right operand of a multiplication or a
/// division is an integer, and the right operand of an addition or a
/// subtraction holds no addition or subtraction.
pub proof fn lemma_precedence_bounds_registers(node: ASTNode)
    requires
        node.wf(),
        node.respects_precedence(),
    ensures
        registers_needed(node) <= 4,
        binding_power(node.operation) == 2 ==> registers_needed(node) <= 3,
        binding_power(node.operation) == 0 ==> registers_needed(node) == 1,
    decreases node,
{
    if node.left is Some {
        lemma_precedence_bounds_registers(*node.left->Some_0);
        lemma_precedence_bounds_registers(*node.right->Some_0);
    }
}

/// Every tree that parsing gives can be compiled: the five registers of
/// the pool are enough for it.
pub proof fn lemma_parsed_tree_compiles(tokens: Seq<Result<Token, TokenError>>)
    requires
        parse_spec(tokens) is Ok,
    ensures
        emit(parse_spec(tokens)->Ok_0, full_pool()).result is Ok,
{
    let tree = parse_spec(tokens)->Ok_0;
    lemma_parse_tree(tokens);
    lemma_precedence_bounds_registers(tree);
    lemma_emit_succeeds_iff_enough_registers(tree, full_pool());
}

/// Generates ARM64 assembly for expression trees, with a pool of registers
/// that it takes from and gives back to as a stack.
pub struct ARM64Writer {
    pub writer: AssemblyWriter,
    pub available_registers: Vec<RegisterList>,
}

impl ARM64Writer {
    /// `self` is what `before` becomes by an emission: the lines are added
    /// to the output, and the pool is the one that the emission leaves.
    pub open spec fn continues(self, before: ARM64Writer, emission: Emission) -> bool {
        &&& self.writer@ == before.writer@ + emission.lines
        &&& self.writer.architecture == before.writer.architecture
        &&& self.available_registers@ == emission.pool
    }

    /// A generator with an empty output and a full pool.
    pub fn new() -> (generator: ARM64Writer)
        ensures
            generator.writer@ == Seq::<Seq<char>>::empty(),
            generator.writer.architecture == SupportedArchitectures::ARM64,
            generator.available_registers@ == full_pool(),
    {
        let generator = ARM64Writer {
            writer: AssemblyWriter::new(SupportedArchitectures::ARM64),
            available_registers: vec![
                RegisterList::R4,
                RegisterList::R3,
                RegisterList::R2,
                RegisterList::R1,
                RegisterList::R0,
            ],
        };
        assert(generator.available_registers@ =~= full_pool());
        generator
    }

    /// The name of a register in assembly text.
    pub fn format_register(&self, register: &RegisterList) -> (name: String)
        ensures
            name@ == register_name(*register),
    {
        String::from_str(
            match register {
                RegisterList::R0 => "x0",
                RegisterList::R1 => "x1",
                RegisterList::R2 => "x2",
                RegisterList::R3 => "x3",
                RegisterList::R4 => "x4",
            },
        )
    }

    /// Takes the register that was given back last, or, of a pool that was
    /// never touched, the lowest one.
    pub fn allocate_register(&mut self) -> (register: Result<RegisterList, CodegenError>)
        ensures
            final(self).writer == old(self).writer,
            old(self).available_registers@.len() == 0 ==> register == Err::<
                RegisterList,
                CodegenError,
            >(CodegenError::RegisterExhausted) && final(self).available_registers@ == old(
                self,
            ).available_registers@,
            old(self).available_registers@.len() > 0 ==> register == Ok::<
                RegisterList,
                CodegenError,
            >(old(self).available_registers@.last()) && final(self).available_registers@ == old(
                self,
            ).available_registers@.drop_last(),
    {
        match self.available_registers.pop() {
            Some(register) => Ok(register),
            None => Err(CodegenError::RegisterExhausted),
        }
    }

    /// Gives a register back to the pool. Whether it was taken from the pool
    /// is not looked at.
    pub fn free_register(&mut self, register: RegisterList)
        ensures
            final(self).writer == old(self).writer,
            final(self).available_registers@ == old(self).available_registers@.push(register),
    {
        self.available_registers.push(register);
    }

    /// Makes the pool full again.
    pub fn free_all_registers(&mut self)
        ensures
            final(self).writer == old(self).writer,
            final(self).available_registers@ == full_pool(),
    {
        self.available_registers = vec![
            RegisterList::R4,
            RegisterList::R3,
            RegisterList::R2,
            RegisterList::R1,
            RegisterList::R0,
        ];
        assert(self.available_registers@ =~= full_pool());
    }

    /// Loads a number into a register taken from the pool.
    pub fn load_register(&mut self, value: i32) -> (register: Result<RegisterList, CodegenError>)
        ensures
            final(self).continues(
                *old(self),
                take_and_emit(
                    Seq::empty(),
                    old(self).available_registers@,
                    load_line(old(self).available_registers@.last(), value),
                    Seq::empty(),
                ),
            ),
            register == take_and_emit(
                Seq::empty(),
                old(self).available_registers@,
                load_line(old(self).available_registers@.last(), value),
                Seq::empty(),
            ).result,
    {
        let register = match self.allocate_register() {
            Ok(register) => register,
            Err(error) => {
                assert(self.writer@ =~= old(self).writer@ + Seq::<Seq<char>>::empty());
                return Err(error);
            },
        };
        let name = self.format_register(&register);
        let number = decimal_string(value);
        let mut line = String::from_str("\tmov ");
        line.append(name.as_str());
        line.append(", #");
        line.append(number.as_str());
        line.append("\t// ");
        line.append(name.as_str());
        line.append("=");
        line.append(number.as_str());
        self.writer.write_line(line);
        proof {
            let pool = old(self).available_registers@;
            assert(self.writer@ =~= old(self).writer@ + Seq::<Seq<char>>::empty().push(
                load_line(pool.last(), value),
            ));
            assert(self.available_registers@ =~= pool.drop_last() + Seq::<RegisterList>::empty());
        }
        Ok(register)
    }

    /// Emits the lines that report the value of a register, and hands the
    /// register back to the caller.
    pub fn print_register(&mut self, register: RegisterList) -> (same: RegisterList)
        ensures
            same == register,
            final(self).writer@ == old(self).writer@ + print_block(register),
            final(self).writer.architecture == old(self).writer.architecture,
            final(self).available_registers == old(self).available_registers,
    {
        let mut comment = String::from_str("    // Print register value (");
        comment.append(self.format_register(&register).as_str());
        comment.append(")");
        self.writer.write_line(comment);
        self.writer.write_line(String::from_str("    mov x0, #1           // stdout"));
        self.writer.write_line(String::from_str("    mov x16, #4          // write syscall"));
        self.writer.write_line(String::from_str("    svc #0x80"));
        assert(self.writer@ =~= old(self).writer@ + print_block(register));
        register
    }

    /// Emits the instruction `name` over two registers, with its result in a
    /// register taken from the pool, and gives the two registers back.
    fn operate(&mut self, name: &str, reg_1: RegisterList, reg_2: RegisterList) -> (register:
        Result<RegisterList, CodegenError>)
        ensures
            final(self).continues(
                *old(self),
                take_and_emit(
                    Seq::empty(),
                    old(self).available_registers@,
                    operation_line(name@, old(self).available_registers@.last(), reg_1, reg_2),
                    seq![reg_1, reg_2],
                ),
            ),
            register == take_and_emit(
                Seq::empty(),
                old(self).available_registers@,
                operation_line(name@, old(self).available_registers@.last(), reg_1, reg_2),
                seq![reg_1, reg_2],
            ).result,
    {
        let result_reg = match self.allocate_register() {
            Ok(register) => register,
            Err(error) => {
                assert(self.writer@ =~= old(self).writer@ + Seq::<Seq<char>>::empty());
                return Err(error);
            },
        };
        let mut line = String::from_str("    ");
        line.append(name);
        line.append(" ");
        line.append(self.format_register(&result_reg).as_str());
        line.append(", ");
        line.append(self.format_register(&reg_1).as_str());
        line.append(", ");
        line.append(self.format_register(&reg_2).as_str());
        self.writer.write_line(line);
        self.free_register(reg_1);
        self.free_register(reg_2);
        proof {
            let pool = old(self).available_registers@;
            assert(self.writer@ =~= old(self).writer@ + Seq::<Seq<char>>::empty().push(
                operation_line(name@, pool.last(), reg_1, reg_2),
            ));
            assert(self.available_registers@ =~= pool.drop_last() + seq![reg_1, reg_2]);
        }
        Ok(result_reg)
    }

    /// Adds two registers into one taken from the pool, and gives the two back.
    pub fn add_registers(&mut self, reg_1: RegisterList, reg_2: RegisterList) -> (register: Result<
        RegisterList,
        CodegenError,
    >)
        ensures
            final(self).continues(
                *old(self),
                take_and_emit(
                    Seq::empty(),
                    old(self).available_registers@,
                    operation_line("add"@, old(self).available_registers@.last(), reg_1, reg_2),
                    seq![reg_1, reg_2],
                ),
            ),
            register == take_and_emit(
                Seq::empty(),
                old(self).available_registers@,
                operation_line("add"@, old(self).available_registers@.last(), reg_1, reg_2),
                seq![reg_1, reg_2],
            ).result,
    {
        self.operate("add", reg_1, reg_2)
    }

    /// Subtracts the second register from the first into one taken from the
    /// pool, and gives the two back.
    pub fn subtract_registers(&mut self, reg_1: RegisterList, reg_2: RegisterList) -> (register: Result<
        RegisterList,
        CodegenError,
    >)
        ensures
            final(self).continues(
                *old(self),
                take_and_emit(
                    Seq::empty(),
                    old(self).available_registers@,
                    operation_line("sub"@, old(self).available_registers@.last(), reg_1, reg_2),
                    seq![reg_1, reg_2],
                ),
            ),
            register == take_and_emit(
                Seq::empty(),
                old(self).available_registers@,
                operation_line("sub"@, old(self).available_registers@.last(), reg_1, reg_2),
                seq![reg_1, reg_2],
            ).result,
    {
        self.operate("sub", reg_1, reg_2)
    }

    /// Multiplies two registers into one taken from the pool, and gives the two
    /// back.
    pub fn multiply_registers(&mut self, reg_1: RegisterList, reg_2: RegisterList) -> (register: Result<
        RegisterList,
        CodegenError,
    >)
        ensures
            final(self).continues(
                *old(self),
                take_and_emit(
                    Seq::empty(),
                    old(self).available_registers@,
                    operation_line("mul"@, old(self).available_registers@.last(), reg_1, reg_2),
                    seq![reg_1, reg_2],
                ),
            ),
            register == take_and_emit(
                Seq::empty(),
                old(self).available_registers@,
                operation_line("mul"@, old(self).available_registers@.last(), reg_1, reg_2),
                seq![reg_1, reg_2],
            ).result,
    {
        self.operate("mul", reg_1, reg_2)
    }

    /// Divides the first register by the second, unsigned, into one taken from
    /// the pool, and gives the two back. A zero divisor is the machine's affair.
    pub fn divide_registers(&mut self, reg_1: RegisterList, reg_2: RegisterList) -> (register: Result<
        RegisterList,
        CodegenError,
    >)
        ensures
            final(self).continues(
                *old(self),
                take_and_emit(
                    Seq::empty(),
                    old(self).available_registers@,
                    operation_line("udiv"@, old(self).available_registers@.last(), reg_1, reg_2),
                    seq![reg_1, reg_2],
                ),
            ),
            register == take_and_emit(
                Seq::empty(),
                old(self).available_registers@,
                operation_line("udiv"@, old(self).available_registers@.last(), reg_1, reg_2),
                seq![reg_1, reg_2],
            ).result,
    {
        self.operate("udiv", reg_1, reg_2)
    }

    /// Emits the lines that every program starts with.
    pub fn write_assembly_headers(&mut self)
        ensures
            final(self).writer@ == old(self).writer@ + prologue(),
            final(self).writer.architecture == old(self).writer.architecture,
            final(self).available_registers == old(self).available_registers,
    {
        self.writer.write_line(String::from_str("// Auto-generated ARM64 assembly"));
        self.writer.write_line(String::from_str(".arch arm64"));
        self.writer.write_line(String::from_str(".text"));
        self.writer.write_line(String::from_str(".global _main"));
        self.writer.write_line(String::from_str(".align 2"));
        self.writer.write_line(String::from_str(""));
        self.writer.write_line(String::from_str("_main:"));
        assert(self.writer@ =~= old(self).writer@ + prologue());
    }

    /// Emits the lines that end the process with the status zero.
    pub fn write_exit_syscall(&mut self)
        ensures
            final(self).writer@ == old(self).writer@ + epilogue(),
            final(self).writer.architecture == old(self).writer.architecture,
            final(self).available_registers == old(self).available_registers,
    {
        self.writer.write_line(String::from_str(""));
        self.writer.write_line(String::from_str("    // Exit program"));
        self.writer.write_line(String::from_str("    mov x0, #0           // Exit status 0"));
        self.writer.write_line(String::from_str("    mov x16, #1          // Exit syscall"));
        self.writer.write_line(String::from_str("    svc #0x80            // Make system call"));
        assert(self.writer@ =~= old(self).writer@ + epilogue());
    }

    /// Generates the code for a tree, operands before operators, and returns
    /// the register that holds its value.
    pub fn generate_assembly_from_ast(&mut self, node: &ASTNode) -> (register: Result<
        RegisterList,
        CodegenError,
    >)
        ensures
            final(self).continues(*old(self), emit(*node, old(self).available_registers@)),
            register == emit(*node, old(self).available_registers@).result,
        decreases node,
    {
        let ghost pool = self.available_registers@;
        let ghost written = self.writer@;
        match node.operation {
            Token::INT(n) => self.load_register(n),
            Token::PLUS | Token::MINUS | Token::ASTERISK | Token::SLASH => {
                let (left, right) = match (&node.left, &node.right) {
                    (Some(left), Some(right)) => (left, right),
                    _ => {
                        assert(self.writer@ =~= written + Seq::<Seq<char>>::empty());
                        return Err(CodegenError::UnsupportedOperation);
                    },
                };
                let ghost left_code = emit(**left, pool);
                let left_reg = match self.generate_assembly_from_ast(left) {
                    Ok(register) => register,
                    Err(error) => {
                        return Err(error);
                    },
                };
                let ghost right_code = emit(**right, left_code.pool);
                let right_reg = match self.generate_assembly_from_ast(right) {
                    Ok(register) => register,
                    Err(error) => {
                        assert(self.writer@ =~= written + (left_code.lines + right_code.lines));
                        return Err(error);
                    },
                };
                let ghost operands = self.writer@;
                let result = match node.operation {
                    Token::PLUS => self.add_registers(left_reg, right_reg),
                    Token::MINUS => self.subtract_registers(left_reg, right_reg),
                    Token::ASTERISK => self.multiply_registers(left_reg, right_reg),
                    _ => self.divide_registers(left_reg, right_reg),
                };
                proof {
                    let line = operation_line(
                        mnemonic(node.operation),
                        right_code.pool.last(),
                        left_reg,
                        right_reg,
                    );
                    let last = take_and_emit(
                        Seq::empty(),
                        right_code.pool,
                        line,
                        seq![left_reg, right_reg],
                    );
                    let whole = take_and_emit(
                        left_code.lines + right_code.lines,
                        right_code.pool,
                        line,
                        seq![left_reg, right_reg],
                    );
                    assert(operands =~= written + (left_code.lines + right_code.lines));
                    assert(whole.lines =~= (left_code.lines + right_code.lines) + last.lines);
                    assert(self.writer@ =~= written + whole.lines);
                }
                result
            },
            _ => {
                assert(self.writer@ =~= written + Seq::<Seq<char>>::empty());
                Err(CodegenError::UnsupportedOperation)
            },
        }
    }

    /// Compiles one expression into a whole program: the prologue, the code
    /// of the expression, the report of its value and the epilogue. The pool
    /// is made full first. An error ends the program where it is found.
    pub fn compile_ast(&mut self, ast: &ASTNode) -> (done: Result<(), CodegenError>)
        ensures
            final(self).writer.architecture == old(self).writer.architecture,
            match emit(*ast, full_pool()).result {
                Ok(register) => {
                    &&& done == Ok::<(), CodegenError>(())
                    &&& final(self).writer@ == old(self).writer@ + prologue() + emit(
                        *ast,
                        full_pool(),
                    ).lines + print_block(register) + epilogue()
                    &&& final(self).available_registers@ == emit(*ast, full_pool()).pool.push(
                        register,
                    )
                },
                Err(error) => {
                    &&& done == Err::<(), CodegenError>(error)
                    &&& final(self).writer@ == old(self).writer@ + prologue() + emit(
                        *ast,
                        full_pool(),
                    ).lines
                    &&& final(self).available_registers@ == emit(*ast, full_pool()).pool
                },
            },
            done is Ok ==> final(self).available_registers@.len() == full_pool().len(),
            done is Ok ==> final(self).available_registers@.to_multiset()
                == full_pool().to_multiset(),
            ast.wf() ==> (done is Ok <==> registers_needed(*ast) <= full_pool().len()),
            ast.wf() && done is Err ==> done == Err::<(), CodegenError>(
                CodegenError::RegisterExhausted,
            ),
    {
        proof {
            if emit(*ast, full_pool()).result is Ok {
                lemma_emit_keeps_registers(*ast, full_pool());
            }
            if ast.wf() {
                lemma_emit_succeeds_iff_enough_registers(*ast, full_pool());
            }
        }
        self.free_all_registers();
        self.write_assembly_headers();
        let result_reg = match self.generate_assembly_from_ast(ast) {
            Ok(register) => register,
            Err(error) => {
                return Err(error);
            },
        };
        let result_reg = self.print_register(result_reg);
        self.free_register(result_reg);
        self.write_exit_syscall();
        Ok(())
    }
}

} // verus!
