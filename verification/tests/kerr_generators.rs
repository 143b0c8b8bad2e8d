use oderom::diff::diff;
use oderom::expr::Expr;
use oderom::rationalize::denominator_degree;

fn sigma() -> Expr {
    Expr::var("r").pow(2) + Expr::var("a").pow(2) * Expr::var("theta").cos().pow(2)
}

fn delta() -> Expr {
    Expr::var("r").pow(2) - Expr::integer(2) * Expr::var("M") * Expr::var("r") + Expr::var("a").pow(2)
}

fn sin_theta() -> Expr {
    Expr::var("theta").sin()
}

fn dd(e: &Expr) -> i32 {
    denominator_degree(e).unwrap()
}

fn degree_of(y: &Expr) -> i32 {
    dd(&Expr::Pow(Box::new(y.clone()), -1))
}

fn assert_coprime(x: &Expr, y: &Expr, label: &str) {
    let expected = degree_of(y);
    let got = dd(&(x.clone() * Expr::Pow(Box::new(y.clone()), -1)));
    assert_eq!(got, expected, "{label}: expected no cancellation (denominator degree {expected}), got {got}");
}

#[test]
fn sigma_and_delta_are_coprime() {
    assert_coprime(&sigma(), &delta(), "Sigma/Delta");
    assert_coprime(&delta(), &sigma(), "Delta/Sigma");
}

#[test]
fn sigma_and_sin_theta_are_coprime() {
    assert_coprime(&sigma(), &sin_theta(), "Sigma/sin(theta)");
}

#[test]
fn delta_and_sin_theta_are_coprime() {
    assert_coprime(&delta(), &sin_theta(), "Delta/sin(theta)");
}

#[test]
fn sigma_is_square_free() {
    let d_dr = diff(&sigma(), "r");
    assert_coprime(&sigma(), &d_dr, "Sigma/d(Sigma)/dr");
}

#[test]
fn delta_is_square_free() {
    let d_dr = diff(&delta(), "r");
    assert_coprime(&delta(), &d_dr, "Delta/d(Delta)/dr");
    let d_dm = diff(&delta(), "M");
    assert_coprime(&delta(), &d_dm, "Delta/d(Delta)/dM");
}

#[test]
fn sin_theta_is_square_free() {
    let d_dtheta = diff(&sin_theta(), "theta");
    assert_coprime(&sin_theta(), &d_dtheta, "sin(theta)/cos(theta)");
}

#[test]
fn the_coprimality_check_itself_detects_a_real_shared_factor() {
    let sigma_squared = Expr::Pow(Box::new(sigma()), 2);
    let expected_if_coprime = degree_of(&sigma_squared);
    let got = dd(&(sigma() * Expr::Pow(Box::new(sigma_squared), -1)));
    assert_ne!(got, expected_if_coprime);
    assert_eq!(got, degree_of(&sigma()));
}
