use company_track::company::Company;
use company_track::report::{build_report, distribution_entry};

#[test]
fn report_for_one_department_and_one_employee() {
    let mut company = Company::default();
    assert!(company.add_department("Engineering ".to_string()).is_ok());
    assert!(company.hire_employee("Alice".to_string(), "Engineering".to_string()).is_ok());

    let report = build_report(&company);
    assert_eq!(report.departments, 1);
    assert_eq!(report.employees, 1);
    assert_eq!(report.distribution.len(), 1);
    assert_eq!(report.distribution[0].0, "engineering");
    assert_eq!(report.distribution[0].1, "100.00% (1 employees)");
}

#[test]
fn report_without_departments_or_employees_is_empty_but_defined() {
    let company = Company::default();
    let report = build_report(&company);
    assert_eq!(report.departments, 0);
    assert_eq!(report.employees, 0);
    assert_eq!(report.distribution.len(), 0);
}

#[test]
fn department_without_employees_reports_a_zero_share() {
    let mut company = Company::default();
    assert!(company.add_department("Engineering".to_string()).is_ok());

    // No employees at all: the share is defined as zero, never undefined.
    let report = build_report(&company);
    assert_eq!(report.employees, 0);
    assert_eq!(report.distribution[0].1, "0.00% (0 employees)");
}

#[test]
fn shares_are_rounded_to_two_fractional_digits() {
    let mut company = Company::default();
    assert!(company.add_department("Engineering".to_string()).is_ok());
    assert!(company.add_department("Sales".to_string()).is_ok());
    assert!(company.hire_employee("Alice".to_string(), "Engineering".to_string()).is_ok());
    assert!(company.hire_employee("Bob".to_string(), "Sales".to_string()).is_ok());
    assert!(company.hire_employee("Carol".to_string(), "Sales".to_string()).is_ok());

    let report = build_report(&company);
    assert_eq!(report.distribution[0].1, "33.33% (1 employees)");
    assert_eq!(report.distribution[1].1, "66.67% (2 employees)");
}

#[test]
fn distribution_entry_renders_exact_values() {
    assert_eq!(distribution_entry(0, 0), "0.00% (0 employees)");
    assert_eq!(distribution_entry(1, 1), "100.00% (1 employees)");
    assert_eq!(distribution_entry(1, 8), "12.50% (1 employees)");
    assert_eq!(distribution_entry(1, 3), "33.33% (1 employees)");
    assert_eq!(distribution_entry(2, 3), "66.67% (2 employees)");
    assert_eq!(distribution_entry(0, 5), "0.00% (0 employees)");
    assert_eq!(distribution_entry(7, 7), "100.00% (7 employees)");
}
