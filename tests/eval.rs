use polish_calc::ast::Expr;
use polish_calc::eval::calculate;

#[test]
fn plain_num() {
    let num = Expr::Num(1);
    assert_eq!(1, calculate(num));
}

#[test]
fn plain_additional_expr() {
    let expr = Expr::Plus(Box::new(Expr::Num(1)), Box::new(Expr::Num(2)));
    assert_eq!(3, calculate(expr));
}

#[test]
fn parened_additional_expr() {
    let parened = Expr::Plus(Box::new(Expr::Num(2)), Box::new(Expr::Num(3)));
    let expr = Expr::Plus(Box::new(Expr::Num(1)), Box::new(parened));
    assert_eq!(6, calculate(expr));
}

#[test]
fn parened_num_is_transparent() {
    let grouped = Expr::Parened(Box::new(Expr::Num(5)));
    assert_eq!(5, calculate(grouped));
    assert_eq!(5, calculate(Expr::Num(5)));
}

#[test]
fn addition_wraps_on_overflow() {
    let expr = Expr::Plus(Box::new(Expr::Num(i32::MAX)), Box::new(Expr::Num(1)));
    assert_eq!(i32::MIN, calculate(expr));
}

#[test]
fn largest_sum_is_exact() {
    let expr = Expr::Plus(Box::new(Expr::Num(i32::MAX - 10)), Box::new(Expr::Num(10)));
    assert_eq!(i32::MAX, calculate(expr));
}
