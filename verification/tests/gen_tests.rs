use brainflak::ast::{translate, Effect, Expr, Inst};
use brainflak::gen::{compile, compile_value, compile_effects};
use brainflak::parser::parse;
use brainflak::value::{Value, ValuePart};
use num_bigint::BigInt;

const HEADER: &str = "#include<stdlib.h>\n#include<string.h>\n#include<stdio.h>\ntypedef long long l;int main(int argc,char**argv){l*s=malloc(1024*sizeof(l)),*o=malloc(1024*sizeof(l));size_t p=argc-1,d=0;size_t c=1024,v=1024;for(int i=1;i<argc;i++)s[i-1]=atoll(argv[i]);";
const FOOTER: &str = "for(size_t i=p;i>0;i--)printf(\"%lld\\n\",s[i-1]);}";

fn parsed(src: &str) -> Vec<Inst> {
    let mut diags = Vec::new();
    parse(src, &mut diags).expect("source must parse")
}

#[test]
fn empty_program_is_header_and_footer() {
    let e = translate(&vec![]);
    assert_eq!(compile(&e), format!("{HEADER}{FOOTER}"));
}

#[test]
fn one_push_emits_growth_temporary_store_and_adjust() {
    let e = translate(&parsed("(())"));
    let body = "if(p+1>c){while(p+1>c)c*=2;s=realloc(s,c*sizeof(l));}l t0_0=(1);s[p+0]=t0_0;p+=1;";
    assert_eq!(compile(&e), format!("{HEADER}{body}{FOOTER}"));
}

#[test]
fn pop_emits_negative_adjust_and_no_growth() {
    let e = translate(&parsed("{}"));
    let body = "p+=-1;";
    assert_eq!(compile(&e), format!("{HEADER}{body}{FOOTER}"));
}

#[test]
fn toggled_batch_emits_exactly_one_swap() {
    let e = translate(&parsed("<>"));
    let body = "{size_t t=p;p=d;d=t;size_t g=c;c=v;v=g;l*h=s;s=o;o=h;}";
    assert_eq!(compile(&e), format!("{HEADER}{body}{FOOTER}"));
}

#[test]
fn double_toggle_emits_no_swap_and_addresses_original_side() {
    // two toggles inside one batch cancel: the pop addresses the
    // original side and no exchange is emitted
    let e = translate(&parsed("<><>{}"));
    let out = compile(&e);
    assert!(!out.contains("size_t t=p"));
    assert_eq!(out, format!("{HEADER}p+=-1;{FOOTER}"));
}

#[test]
fn loop_emits_accumulator_guard_and_body() {
    let e = translate(&parsed("{()}"));
    let body = "l r0=0;while(p&&s[p-1]){r0+=(1);}";
    assert_eq!(compile(&e), format!("{HEADER}{body}{FOOTER}"));
}

#[test]
fn stack_atoms_read_pre_batch_memory() {
    // push(pop - 1): the slot is read into a temporary before the write
    let e = translate(&parsed("({}[()])"));
    let body = "l t0_0=(-1+s[p-1]);s[p+-1]=t0_0;";
    assert_eq!(compile(&e), format!("{HEADER}{body}{FOOTER}"));
}

#[test]
fn constants_are_wrapped_to_fixed_width_at_emission() {
    // 2^64 + 5 wraps to 5; -1 stays -1; 2^63 wraps to the least value
    let cases: Vec<(BigInt, &str)> = vec![
        (BigInt::from(5u8) + (BigInt::from(1u8) << 64), "(5)"),
        (BigInt::from(-1), "(-1)"),
        (BigInt::from(1u8) << 63, "(-9223372036854775808)"),
        ((BigInt::from(1u8) << 63) - 1, "(9223372036854775807)"),
        (BigInt::from(0), "(0)"),
    ];
    for (c, expect) in cases {
        let val = Value { const_val: c, parts: vec![] };
        let mut out = String::new();
        compile_value(&mut out, &val);
        assert_eq!(out, expect);
    }
}

#[test]
fn coefficients_print_unless_one() {
    let val = Value {
        const_val: BigInt::from(7),
        parts: vec![
            (ValuePart::CurStackElem(2), 1),
            (ValuePart::OffStackSize, -3),
            (ValuePart::LoopResult(4), 2),
        ],
    };
    let mut out = String::new();
    compile_value(&mut out, &val);
    assert_eq!(out, "(7+s[p-3]+d*-3+r4*2)");
}

#[test]
fn growth_check_covers_the_whole_offset() {
    // three queued pushes: the emitted loop doubles until p+3 fits
    let e = translate(&parsed("(())(())(())"));
    let out = compile(&e);
    assert!(out.contains("if(p+3>c){while(p+3>c)c*=2;s=realloc(s,c*sizeof(l));}"));
    assert!(out.contains("s[p+0]=t0_0;s[p+1]=t1_0;s[p+2]=t2_0;p+=3;"));
}

#[test]
fn effects_can_be_emitted_standalone() {
    let e: Expr = translate(&parsed("{}"));
    let mut out = String::new();
    compile_effects(&mut out, &e.effects);
    assert_eq!(out, "p+=-1;");
    match &e.effects[0] {
        Effect::Stack(b) => assert_eq!(b.cur_pop, 1),
        _ => panic!("expected a stack effect"),
    }
}
